//! Routing-table snapshots: every change builds a complete new list, so a
//! published table is only ever replaced wholesale and a reader holding an
//! older snapshot keeps one full generation of the list.
use vstd::prelude::*;
use crate::app::{Mapping, MappingStatus};

verus! {

fn clone_mapping(m: &Mapping) -> (r: Mapping)
    ensures
        r@ == m@,
{
    Mapping { domain: m.domain.clone(), port: m.port, status: m.status }
}

/// A fresh snapshot with one mapping appended.
pub fn with_mapping_added(table: &Vec<Mapping>, m: Mapping) -> (r: Vec<Mapping>)
    ensures
        r.deep_view() == table.deep_view().push(m@),
{
    let mut r: Vec<Mapping> = Vec::new();
    let mut i: usize = 0;
    proof {
        assert(r.deep_view() =~= table.deep_view().take(0));
    }
    while i < table.len()
        invariant
            0 <= i <= table.len(),
            r.deep_view() == table.deep_view().take(i as int),
        decreases table.len() - i,
    {
        let ghost dv0 = r.deep_view();
        r.push(clone_mapping(&table[i]));
        proof {
            assert(r.deep_view() =~= dv0.push(table.deep_view()[i as int]));
            assert(r.deep_view() =~= table.deep_view().take(i + 1));
        }
        i = i + 1;
    }
    let ghost dv0 = r.deep_view();
    r.push(m);
    proof {
        assert(table.deep_view().take(table.len() as int) =~= table.deep_view());
        assert(r.deep_view() =~= dv0.push(m@));
        assert(r.deep_view() =~= table.deep_view().push(m@));
    }
    r
}

/// A fresh snapshot with the mapping at this index removed.
pub fn with_mapping_removed(table: &Vec<Mapping>, index: usize) -> (r: Vec<Mapping>)
    requires
        index < table@.len(),
    ensures
        r.deep_view() == table.deep_view().remove(index as int),
{
    let mut r: Vec<Mapping> = Vec::new();
    let mut i: usize = 0;
    proof {
        assert(r.deep_view() =~= Seq::<<Mapping as DeepView>::V>::empty());
    }
    while i < table.len()
        invariant
            index < table@.len(),
            0 <= i <= table.len(),
            r.deep_view() == if i <= index {
                table.deep_view().take(i as int)
            } else {
                table.deep_view().remove(index as int).take((i - 1) as int)
            },
        decreases table.len() - i,
    {
        let ghost dv0 = r.deep_view();
        let ghost full = table.deep_view();
        if i != index {
            r.push(clone_mapping(&table[i]));
            proof {
                assert(r.deep_view() =~= dv0.push(full[i as int]));
                if i < index {
                    assert(r.deep_view() =~= full.take(i + 1));
                } else {
                    assert(full.remove(index as int)[i - 1] == full[i as int]);
                    assert(r.deep_view() =~= full.remove(index as int).take(i as int));
                }
            }
        } else {
            proof {
                assert(full.remove(index as int).take(i as int) =~= full.take(i as int));
            }
        }
        i = i + 1;
    }
    proof {
        let full = table.deep_view();
        assert(full.remove(index as int).take((table.len() - 1) as int) =~= full.remove(
            index as int,
        ));
    }
    r
}

/// Whether a mapping with this exact domain is already in the table.
pub fn has_mapping(table: &Vec<Mapping>, domain: &str) -> (r: bool)
    ensures
        r == exists|i: int|
            0 <= i < table.deep_view().len() && (#[trigger] table.deep_view()[i]).domain
                == domain@,
{
    let n = table.len();
    let mut i: usize = 0;
    while i < n
        invariant
            n == table.len(),
            0 <= i <= n,
            forall|j: int| 0 <= j < i ==> (#[trigger] table.deep_view()[j]).domain != domain@,
        decreases n - i,
    {
        if crate::hosts::text::str_eq_str(table[i].domain.as_str(), domain) {
            proof {
                assert((table.deep_view()[i as int]).domain == domain@);
            }
            return true;
        }
        i = i + 1;
    }
    false
}

/// The status a reachability probe outcome stands for.
pub fn probe_status(reachable: bool) -> (r: MappingStatus)
    ensures
        r == if reachable {
            MappingStatus::Active
        } else {
            MappingStatus::PortUnreachable
        },
{
    if reachable {
        MappingStatus::Active
    } else {
        MappingStatus::PortUnreachable
    }
}

/// A fresh snapshot carrying the probed statuses, and whether any status
/// actually changed; domains and ports are untouched.
pub fn with_statuses_applied(table: &Vec<Mapping>, statuses: &Vec<MappingStatus>) -> (r: (
    Vec<Mapping>,
    bool,
))
    requires
        statuses@.len() == table@.len(),
    ensures
        r.0.deep_view().len() == table.deep_view().len(),
        forall|i: int|
            0 <= i < table.deep_view().len() ==> (#[trigger] r.0.deep_view()[i]).domain
                == table.deep_view()[i].domain && r.0.deep_view()[i].port
                == table.deep_view()[i].port && r.0.deep_view()[i].status == statuses@[i],
        r.1 == exists|i: int|
            0 <= i < table.deep_view().len() && (#[trigger] table.deep_view()[i]).status
                != statuses@[i],
{
    let mut out: Vec<Mapping> = Vec::new();
    let mut changed = false;
    let mut i: usize = 0;
    while i < table.len()
        invariant
            statuses@.len() == table@.len(),
            0 <= i <= table.len(),
            out.deep_view().len() == i,
            forall|j: int|
                0 <= j < i ==> (#[trigger] out.deep_view()[j]).domain
                    == table.deep_view()[j].domain && out.deep_view()[j].port
                    == table.deep_view()[j].port && out.deep_view()[j].status == statuses@[j],
            changed == exists|j: int|
                0 <= j < i && (#[trigger] table.deep_view()[j]).status != statuses@[j],
        decreases table.len() - i,
    {
        let ghost dv0 = out.deep_view();
        let new_status = statuses[i];
        if new_status != table[i].status {
            changed = true;
            proof {
                assert((table.deep_view()[i as int]).status != statuses@[i as int]);
            }
        } else {
            proof {
                if exists|j: int|
                    0 <= j < i + 1 && (#[trigger] table.deep_view()[j]).status != statuses@[j] {
                    let w = choose|j: int|
                        0 <= j < i + 1 && (#[trigger] table.deep_view()[j]).status != statuses@[j];
                    assert(w < i);
                }
            }
        }
        out.push(Mapping { domain: table[i].domain.clone(), port: table[i].port, status: new_status });
        proof {
            assert(out.deep_view() =~= dv0.push(
                crate::app::MappingModel {
                    domain: table.deep_view()[i as int].domain,
                    port: table.deep_view()[i as int].port,
                    status: statuses@[i as int],
                },
            ));
        }
        i = i + 1;
    }
    (out, changed)
}

} // verus!
