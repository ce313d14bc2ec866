//! Error taxonomy of the system, with the exact message each case carries.
use vstd::prelude::*;
use vstd::string::*;

verus! {

#[derive(Debug)]
pub enum PortmapError {
    NotRoot,
    HostsRead(String),
    HostsWrite(String),
    InvalidPort,
    InvalidDomain,
    DuplicateMapping(String),
    ProxyBind(String),
    ProxyError(String),
}

impl PortmapError {
    /// The message text shown for this error.
    pub fn message(&self) -> (r: String)
        ensures
            self matches PortmapError::NotRoot ==> r@ == "Must run as root (sudo portmap)"@,
            self matches PortmapError::HostsRead(s) ==> r@ == "Failed to read /etc/hosts: "@
                + s@,
            self matches PortmapError::HostsWrite(s) ==> r@ == "Failed to write /etc/hosts: "@
                + s@,
            self matches PortmapError::InvalidPort ==> r@ == "Port must be between 1 and 65535"@,
            self matches PortmapError::InvalidDomain ==> r@
                == "Domain must be non-empty and contain only alphanumeric characters or hyphens"@,
            self matches PortmapError::DuplicateMapping(s) ==> r@
                == "Mapping already exists for "@ + s@,
            self matches PortmapError::ProxyBind(s) ==> r@ == "Failed to bind to port 80: "@
                + s@,
            self matches PortmapError::ProxyError(s) ==> r@ == "Proxy error: "@ + s@,
    {
        match self {
            PortmapError::NotRoot => "Must run as root (sudo portmap)".to_owned(),
            PortmapError::HostsRead(s) => {
                let mut m = "Failed to read /etc/hosts: ".to_owned();
                m.append(s.as_str());
                m
            },
            PortmapError::HostsWrite(s) => {
                let mut m = "Failed to write /etc/hosts: ".to_owned();
                m.append(s.as_str());
                m
            },
            PortmapError::InvalidPort => "Port must be between 1 and 65535".to_owned(),
            PortmapError::InvalidDomain => {
                "Domain must be non-empty and contain only alphanumeric characters or hyphens".to_owned()
            },
            PortmapError::DuplicateMapping(s) => {
                let mut m = "Mapping already exists for ".to_owned();
                m.append(s.as_str());
                m
            },
            PortmapError::ProxyBind(s) => {
                let mut m = "Failed to bind to port 80: ".to_owned();
                m.append(s.as_str());
                m
            },
            PortmapError::ProxyError(s) => {
                let mut m = "Proxy error: ".to_owned();
                m.append(s.as_str());
                m
            },
        }
    }
}

} // verus!
