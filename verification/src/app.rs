use vstd::prelude::*;

verus! {

/// A single domain -> port mapping.
#[derive(Debug, Clone, PartialEq)]
pub struct Mapping {
    /// Full domain, e.g. "my-project.localhost"
    pub domain: String,
    /// Target port on localhost
    pub port: u16,
    /// Whether the port is reachable
    pub status: MappingStatus,
}

#[derive(Debug, Clone, Copy, PartialEq, Eq, Structural)]
pub enum MappingStatus {
    Active,
    PortUnreachable,
    /// Not yet checked
    Unknown,
}

/// Mathematical model of a `Mapping`.
pub struct MappingModel {
    pub domain: Seq<char>,
    pub port: u16,
    pub status: MappingStatus,
}

impl View for Mapping {
    type V = MappingModel;

    open spec fn view(&self) -> MappingModel {
        MappingModel { domain: self.domain@, port: self.port, status: self.status }
    }
}

impl DeepView for Mapping {
    type V = MappingModel;

    open spec fn deep_view(&self) -> MappingModel {
        self.view()
    }
}

impl MappingStatus {
    /// Human-readable status text, as shown in the status column.
    pub fn label(&self) -> (r: String)
        ensures
            *self is Active ==> r@ == "Active"@,
            *self is PortUnreachable ==> r@ == "Port Unreachable"@,
            *self is Unknown ==> r@ == "Unknown"@,
    {
        match self {
            MappingStatus::Active => "Active".to_owned(),
            MappingStatus::PortUnreachable => "Port Unreachable".to_owned(),
            MappingStatus::Unknown => "Unknown".to_owned(),
        }
    }
}

/// The current mode of the TUI.
#[derive(Debug, Clone, Copy, PartialEq, Eq, Structural)]
pub enum InputMode {
    /// Normal mode - navigating the table
    Normal,
    /// Adding a new mapping (popup visible)
    Adding,
}

/// Which field is focused in the add-mapping popup.
#[derive(Debug, Clone, Copy, PartialEq, Eq, Structural)]
pub enum PopupField {
    Domain,
    Port,
}

/// State for the TUI (not shared with the proxy - the proxy reads table snapshots).
pub struct TuiState {
    /// Currently selected row index
    pub selected: usize,
    /// Current input mode
    pub mode: InputMode,
    /// Domain input buffer (without .localhost suffix)
    pub domain_input: String,
    /// Port input buffer
    pub port_input: String,
    /// Currently focused popup field
    pub popup_field: PopupField,
    /// Status message shown in the status bar
    pub status_message: Option<String>,
}

impl TuiState {
    pub fn new() -> (r: Self)
        ensures
            r.selected == 0,
            r.mode is Normal,
            r.domain_input@ == Seq::<char>::empty(),
            r.port_input@ == Seq::<char>::empty(),
            r.popup_field is Domain,
            r.status_message is None,
    {
        Self {
            selected: 0,
            mode: InputMode::Normal,
            domain_input: String::new(),
            port_input: String::new(),
            popup_field: PopupField::Domain,
            status_message: None,
        }
    }
}

} // verus!
