//! Hosts-file manager: owns the file path and computes the rewritten file
//! content for each operation as a pure transform. The caller performs the
//! read before and the write after, so every operation is read, parse,
//! mutate, serialize, write, with no partial state kept across calls.
use vstd::prelude::*;
use vstd::string::*;
use crate::hosts::parser::{
    HostsFile, HostsModel, EntryModel, parse_spec, serialize_spec, has_domain, add_model,
    remove_domain, restore_content, entries_wf, entry_wf,
};
use crate::hosts::text::is_ws;

verus! {

/// The rewritten file after binding a domain to 127.0.0.1, or nothing when
/// the domain is already bound (a duplicate mutates nothing).
pub open spec fn add_transform(c: Seq<char>, d: Seq<char>) -> Option<Seq<char>> {
    let m = parse_spec(c);
    if has_domain(m.entries, d) {
        None
    } else {
        Some(
            serialize_spec(
                HostsModel {
                    before: m.before,
                    entries: add_model(m.entries, d, "127.0.0.1"@),
                    after: m.after,
                },
            ),
        )
    }
}

/// The rewritten file after unbinding a domain, or nothing when no entry
/// carries it (removing an absent domain mutates nothing).
pub open spec fn remove_transform(c: Seq<char>, d: Seq<char>) -> Option<Seq<char>> {
    let m = parse_spec(c);
    if !has_domain(m.entries, d) {
        None
    } else {
        Some(
            serialize_spec(
                HostsModel {
                    before: m.before,
                    entries: remove_domain(m.entries, d),
                    after: m.after,
                },
            ),
        )
    }
}

/// Adding a domain through the manager keeps the entries well-formed: the
/// bound address is fixed, and a domain free of whitespace and newlines
/// makes a well-formed entry.
pub proof fn lemma_add_keeps_wf(es: Seq<EntryModel>, d: Seq<char>)
    requires
        entries_wf(es),
        d.len() > 0,
        forall|i: int| 0 <= i < d.len() ==> !is_ws(#[trigger] d[i]) && d[i] != '\n',
    ensures
        entries_wf(add_model(es, d, "127.0.0.1"@)),
{
    reveal_strlit("127.0.0.1");
    if !has_domain(es, d) {
        let e = EntryModel { ip: "127.0.0.1"@, domain: d };
        assert(entry_wf(e));
        let out = add_model(es, d, "127.0.0.1"@);
        assert forall|k: int| 0 <= k < out.len() implies entry_wf(#[trigger] out[k]) by {
            if k < es.len() {
                assert(out[k] == es[k]);
            } else {
                assert(out[k] == e);
            }
        }
    }
}

/// Manages the hosts file with sentinel blocks. It holds the path and turns
/// current file content into the content to write back; the surrounding
/// program does the reading and writing.
pub struct HostsManager {
    path: String,
}

impl HostsManager {
    /// The path this manager edits.
    pub closed spec fn path_spec(&self) -> Seq<char> {
        self.path@
    }

    pub fn new() -> (r: Self)
        ensures
            r.path_spec() == "/etc/hosts"@,
    {
        HostsManager { path: "/etc/hosts".to_owned() }
    }

    /// Create a manager with a custom path (for testing).
    pub fn with_path(path: String) -> (r: Self)
        ensures
            r.path_spec() == path@,
    {
        HostsManager { path }
    }

    pub fn path(&self) -> (r: &String)
        ensures
            r@ == self.path_spec(),
    {
        &self.path
    }

    /// Content to write back after adding a domain bound to 127.0.0.1;
    /// `None` means the domain was already bound and nothing is to change.
    pub fn add_entry(&self, content: &str, domain: &str) -> (r: Option<String>)
        ensures
            match r {
                Some(c) => add_transform(content@, domain@) == Some(c@),
                None => add_transform(content@, domain@) is None,
            },
    {
        let mut hosts = HostsFile::parse(content);
        if !hosts.add_entry(domain, "127.0.0.1") {
            return None;
        }
        Some(hosts.serialize())
    }

    /// Content to write back after removing a domain; `None` means no entry
    /// carried it and nothing is to change.
    pub fn remove_entry(&self, content: &str, domain: &str) -> (r: Option<String>)
        ensures
            match r {
                Some(c) => remove_transform(content@, domain@) == Some(c@),
                None => remove_transform(content@, domain@) is None,
            },
    {
        let mut hosts = HostsFile::parse(content);
        if !hosts.remove_entry(domain) {
            return None;
        }
        Some(hosts.serialize())
    }

    /// Content to write back with every managed entry removed; used by the
    /// explicit cleanup invocation, normal shutdown, and the fault paths.
    pub fn restore_all(&self, content: &str) -> (r: String)
        ensures
            r@ == restore_content(content@),
    {
        let mut hosts = HostsFile::parse(content);
        hosts.remove_all();
        hosts.serialize()
    }
}

} // verus!
