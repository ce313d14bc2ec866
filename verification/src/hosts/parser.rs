//! Sentinel-delimited hosts-file codec: parses a hosts file into the lines
//! before the managed block, the managed entries, and the lines after it,
//! and serializes that structure back to text.
use vstd::prelude::*;
use vstd::string::*;
use crate::hosts::text::{
    is_ws, nl_free, trim_spec, token_len, tokens_of, lines_of, unlines, lemma_trim_of_clean,
    lemma_trim_props, lemma_tokens_pair, lemma_tokens_props, lemma_unlines_concat,
    lemma_lines_of_unlines, lemma_lines_nl_free, trim_str, str_eq_str, split_lines, split_tokens,
};

verus! {

/// Mathematical model of one managed entry.
pub struct EntryModel {
    pub ip: Seq<char>,
    pub domain: Seq<char>,
}

/// Mathematical model of a parsed hosts file.
pub struct HostsModel {
    pub before: Seq<Seq<char>>,
    pub entries: Seq<EntryModel>,
    pub after: Seq<Seq<char>>,
}

/// The line that opens the managed block.
pub open spec fn start_marker() -> Seq<char> {
    "# portmap-start (DO NOT EDIT - managed by portmap)"@
}

/// The line that closes the managed block.
pub open spec fn end_marker() -> Seq<char> {
    "# portmap-end"@
}

pub open spec fn is_start_line(l: Seq<char>) -> bool {
    trim_spec(l) == start_marker()
}

pub open spec fn is_end_line(l: Seq<char>) -> bool {
    trim_spec(l) == end_marker()
}

pub open spec fn marker_match(l: Seq<char>, want_start: bool) -> bool {
    if want_start {
        is_start_line(l)
    } else {
        is_end_line(l)
    }
}

/// Index of the first line matching the wanted marker, or -1.
pub open spec fn find_line(ls: Seq<Seq<char>>, want_start: bool) -> int
    decreases ls.len(),
{
    if ls.len() == 0 {
        -1
    } else if marker_match(ls[0], want_start) {
        0
    } else {
        let r = find_line(ls.drop_first(), want_start);
        if r < 0 {
            -1
        } else {
            r + 1
        }
    }
}

/// The entry a line inside the block stands for, if any: blank lines and
/// comments are skipped, as are lines with fewer than two tokens.
pub open spec fn entry_of_line(l: Seq<char>) -> Option<EntryModel> {
    let t = trim_spec(l);
    if t.len() == 0 {
        None
    } else if t[0] == '#' {
        None
    } else {
        let tk = tokens_of(t);
        if tk.len() >= 2 {
            Some(EntryModel { ip: tk[0], domain: tk[1] })
        } else {
            None
        }
    }
}

/// The entries the block lines stand for, in order.
pub open spec fn entries_of(ls: Seq<Seq<char>>) -> Seq<EntryModel>
    decreases ls.len(),
{
    if ls.len() == 0 {
        Seq::empty()
    } else {
        match entry_of_line(ls[0]) {
            Some(e) => seq![e] + entries_of(ls.drop_first()),
            None => entries_of(ls.drop_first()),
        }
    }
}

/// Parse split lines: a block needs both markers with the start strictly
/// first; anything else fails open, keeping every line untouched in `before`.
pub open spec fn parse_lines(ls: Seq<Seq<char>>) -> HostsModel {
    let s = find_line(ls, true);
    let e = find_line(ls, false);
    if 0 <= s && s < e {
        HostsModel {
            before: ls.take(s),
            entries: entries_of(ls.subrange(s + 1, e)),
            after: ls.skip(e + 1),
        }
    } else {
        HostsModel { before: ls, entries: Seq::empty(), after: Seq::empty() }
    }
}

pub open spec fn parse_spec(content: Seq<char>) -> HostsModel {
    parse_lines(lines_of(content))
}

/// The text of one managed entry line.
pub open spec fn entry_line(e: EntryModel) -> Seq<char> {
    e.ip + seq!['\t'] + e.domain
}

pub open spec fn entry_lines(es: Seq<EntryModel>) -> Seq<Seq<char>> {
    es.map_values(|e: EntryModel| entry_line(e))
}

/// The whole managed block as lines, markers included.
pub open spec fn block_lines(es: Seq<EntryModel>) -> Seq<Seq<char>> {
    seq![start_marker()] + entry_lines(es) + seq![end_marker()]
}

/// Serialized text: the block appears only when there is at least one entry.
pub open spec fn serialize_spec(h: HostsModel) -> Seq<char> {
    if h.entries.len() == 0 {
        unlines(h.before) + unlines(h.after)
    } else {
        unlines(h.before) + unlines(block_lines(h.entries)) + unlines(h.after)
    }
}

/// Some entry carries this domain.
pub open spec fn has_domain(es: Seq<EntryModel>, d: Seq<char>) -> bool {
    exists|i: int| 0 <= i < es.len() && es[i].domain == d
}

/// The entries after an add: unchanged on a duplicate, else appended.
pub open spec fn add_model(es: Seq<EntryModel>, d: Seq<char>, ip: Seq<char>) -> Seq<EntryModel> {
    if has_domain(es, d) {
        es
    } else {
        es.push(EntryModel { ip: ip, domain: d })
    }
}

/// The entries left after removing every entry with this domain.
pub open spec fn remove_domain(es: Seq<EntryModel>, d: Seq<char>) -> Seq<EntryModel>
    decreases es.len(),
{
    if es.len() == 0 {
        es
    } else {
        let rest = remove_domain(es.drop_last(), d);
        if es.last().domain == d {
            rest
        } else {
            rest.push(es.last())
        }
    }
}

/// How many entries carry this domain.
pub open spec fn domain_count(es: Seq<EntryModel>, d: Seq<char>) -> nat
    decreases es.len(),
{
    if es.len() == 0 {
        0
    } else {
        domain_count(es.drop_last(), d) + if es.last().domain == d {
            1nat
        } else {
            0nat
        }
    }
}

/// An entry whose line survives the round trip: both words non-empty, free
/// of whitespace and newlines, and the ip not opening a comment.
pub open spec fn entry_wf(e: EntryModel) -> bool {
    &&& e.ip.len() > 0
    &&& e.domain.len() > 0
    &&& forall|i: int| 0 <= i < e.ip.len() ==> !is_ws(#[trigger] e.ip[i]) && e.ip[i] != '\n'
    &&& forall|i: int|
        0 <= i < e.domain.len() ==> !is_ws(#[trigger] e.domain[i]) && e.domain[i] != '\n'
    &&& e.ip[0] != '#'
}

pub open spec fn entries_wf(es: Seq<EntryModel>) -> bool {
    forall|i: int| 0 <= i < es.len() ==> entry_wf(#[trigger] es[i])
}

/// Unmanaged prefix lines that cannot be mistaken for the block.
pub open spec fn before_wf(ls: Seq<Seq<char>>) -> bool {
    forall|i: int|
        0 <= i < ls.len() ==> nl_free(#[trigger] ls[i]) && !is_start_line(ls[i]) && !is_end_line(
            ls[i],
        )
}

/// Unmanaged suffix lines that cannot open a second block.
pub open spec fn after_wf(ls: Seq<Seq<char>>) -> bool {
    forall|i: int| 0 <= i < ls.len() ==> nl_free(#[trigger] ls[i]) && !is_start_line(ls[i])
}

/// A model whose serialization parses back faithfully.
pub open spec fn hosts_wf(h: HostsModel) -> bool {
    before_wf(h.before) && entries_wf(h.entries) && after_wf(h.after)
}

pub proof fn lemma_marker_facts()
    ensures
        start_marker().len() > 0,
        end_marker().len() > 0,
        trim_spec(start_marker()) == start_marker(),
        trim_spec(end_marker()) == end_marker(),
        start_marker() != end_marker(),
        start_marker()[0] == '#',
        end_marker()[0] == '#',
        nl_free(start_marker()),
        nl_free(end_marker()),
{
    reveal_strlit("# portmap-start (DO NOT EDIT - managed by portmap)");
    reveal_strlit("# portmap-end");
    lemma_trim_of_clean(start_marker());
    lemma_trim_of_clean(end_marker());
}

pub proof fn lemma_find_line_props(ls: Seq<Seq<char>>, want_start: bool)
    ensures
        find_line(ls, want_start) == -1 ==> forall|i: int|
            0 <= i < ls.len() ==> !marker_match(#[trigger] ls[i], want_start),
        find_line(ls, want_start) >= 0 ==> find_line(ls, want_start) < ls.len() && marker_match(
            ls[find_line(ls, want_start)],
            want_start,
        ) && forall|i: int|
            0 <= i < find_line(ls, want_start) ==> !marker_match(#[trigger] ls[i], want_start),
    decreases ls.len(),
{
    if ls.len() > 0 && !marker_match(ls[0], want_start) {
        lemma_find_line_props(ls.drop_first(), want_start);
        let r = find_line(ls.drop_first(), want_start);
        if r == -1 {
            assert forall|i: int| 0 <= i < ls.len() implies !marker_match(
                #[trigger] ls[i],
                want_start,
            ) by {
                if i > 0 {
                    assert(ls.drop_first()[i - 1] == ls[i]);
                }
            }
        } else {
            assert(ls.drop_first()[r] == ls[r + 1]);
            assert forall|i: int| 0 <= i < r + 1 implies !marker_match(
                #[trigger] ls[i],
                want_start,
            ) by {
                if i > 0 {
                    assert(ls.drop_first()[i - 1] == ls[i]);
                }
            }
        }
    }
}

/// A witness line with none before it pins the found index.
pub proof fn lemma_find_line_at(ls: Seq<Seq<char>>, want_start: bool, k: int)
    requires
        0 <= k < ls.len(),
        marker_match(ls[k], want_start),
        forall|i: int| 0 <= i < k ==> !marker_match(#[trigger] ls[i], want_start),
    ensures
        find_line(ls, want_start) == k,
{
    lemma_find_line_props(ls, want_start);
    let r = find_line(ls, want_start);
    if r == -1 {
        assert(!marker_match(ls[k], want_start));
    } else {
        if r < k {
            assert(!marker_match(ls[r], want_start));
        }
        if k < r {
            assert(!marker_match(ls[k], want_start));
        }
    }
}

pub proof fn lemma_find_line_none(ls: Seq<Seq<char>>, want_start: bool)
    requires
        forall|i: int| 0 <= i < ls.len() ==> !marker_match(#[trigger] ls[i], want_start),
    ensures
        find_line(ls, want_start) == -1,
{
    lemma_find_line_props(ls, want_start);
    let r = find_line(ls, want_start);
    if r >= 0 {
        assert(!marker_match(ls[r], want_start));
    }
}

/// A well-formed entry's line reads back as exactly that entry and can be
/// confused with neither marker.
pub proof fn lemma_entry_line_facts(e: EntryModel)
    requires
        entry_wf(e),
    ensures
        nl_free(entry_line(e)),
        trim_spec(entry_line(e)) == entry_line(e),
        !is_start_line(entry_line(e)),
        !is_end_line(entry_line(e)),
        entry_of_line(entry_line(e)) == Some(e),
{
    let l = entry_line(e);
    assert(l[0] == e.ip[0]);
    assert(l[l.len() - 1] == e.domain[e.domain.len() - 1]);
    assert forall|i: int| 0 <= i < l.len() implies l[i] != '\n' by {
        if i < e.ip.len() {
            assert(l[i] == e.ip[i]);
        } else if i == e.ip.len() {
            assert(l[i] == '\t');
        } else {
            assert(l[i] == e.domain[i - e.ip.len() - 1]);
        }
    }
    lemma_trim_of_clean(l);
    lemma_marker_facts();
    assert(l[0] != '#');
    assert(start_marker()[0] == '#');
    assert(end_marker()[0] == '#');
    lemma_tokens_pair(e.ip, e.domain);
    assert(tokens_of(l)[0] == e.ip);
    assert(tokens_of(l)[1] == e.domain);
    assert(entry_of_line(l) == Some(EntryModel { ip: e.ip, domain: e.domain }));
    assert(EntryModel { ip: e.ip, domain: e.domain } == e);
}

/// The lines of well-formed entries read back as exactly those entries.
pub proof fn lemma_entries_of_entry_lines(es: Seq<EntryModel>)
    requires
        entries_wf(es),
    ensures
        entries_of(entry_lines(es)) == es,
    decreases es.len(),
{
    let el = entry_lines(es);
    if es.len() == 0 {
        assert(el.len() == 0);
        assert(entries_of(el) =~= es);
    } else {
        assert(el[0] == entry_line(es[0]));
        lemma_entry_line_facts(es[0]);
        assert(entries_wf(es.drop_first()));
        lemma_entries_of_entry_lines(es.drop_first());
        assert(el.drop_first() =~= entry_lines(es.drop_first()));
        assert(entries_of(el) == seq![es[0]] + entries_of(el.drop_first()));
        assert(entries_of(el) =~= es);
    }
}

/// One managed entry: an address and the domain mapped to it.
#[derive(Debug, Clone, PartialEq)]
pub struct HostEntry {
    pub ip: String,
    pub domain: String,
}

impl View for HostEntry {
    type V = EntryModel;

    open spec fn view(&self) -> EntryModel {
        EntryModel { ip: self.ip@, domain: self.domain@ }
    }
}

impl DeepView for HostEntry {
    type V = EntryModel;

    open spec fn deep_view(&self) -> EntryModel {
        self.view()
    }
}

/// The parsed state of a hosts file around the managed block.
#[derive(Debug, Clone)]
pub struct HostsFile {
    /// Lines before the sentinel block (or all lines if no block exists).
    pub before: Vec<String>,
    /// Managed entries inside the sentinel block.
    pub entries: Vec<HostEntry>,
    /// Lines after the sentinel block.
    pub after: Vec<String>,
}

impl View for HostsFile {
    type V = HostsModel;

    open spec fn view(&self) -> HostsModel {
        HostsModel {
            before: self.before.deep_view(),
            entries: self.entries.deep_view(),
            after: self.after.deep_view(),
        }
    }
}

fn find_marker_index(lines: &Vec<String>, want_start: bool) -> (r: Option<usize>)
    ensures
        match r {
            Some(i) => i < lines.len() && find_line(lines.deep_view(), want_start) == i,
            None => find_line(lines.deep_view(), want_start) == -1,
        },
{
    let marker: &str = if want_start {
        "# portmap-start (DO NOT EDIT - managed by portmap)"
    } else {
        "# portmap-end"
    };
    proof {
        assert(marker@ == if want_start {
            start_marker()
        } else {
            end_marker()
        });
    }
    let n = lines.len();
    let mut i: usize = 0;
    while i < n
        invariant
            n == lines.len(),
            0 <= i <= n,
            marker@ == if want_start {
                start_marker()
            } else {
                end_marker()
            },
            forall|j: int|
                0 <= j < i ==> !marker_match(#[trigger] lines.deep_view()[j], want_start),
        decreases n - i,
    {
        let t = trim_str(lines[i].as_str());
        if str_eq_str(t, marker) {
            proof {
                assert(marker_match(lines.deep_view()[i as int], want_start));
                lemma_find_line_at(lines.deep_view(), want_start, i as int);
            }
            return Some(i);
        }
        proof {
            assert(!marker_match(lines.deep_view()[i as int], want_start));
        }
        i = i + 1;
    }
    proof {
        lemma_find_line_none(lines.deep_view(), want_start);
    }
    None
}

impl HostsFile {
    /// All content kept verbatim as unmanaged prefix lines.
    fn fail_open(lines: Vec<String>) -> (r: HostsFile)
        ensures
            r@.before == lines.deep_view(),
            r@.entries == Seq::<EntryModel>::empty(),
            r@.after == Seq::<Seq<char>>::empty(),
    {
        let r = HostsFile { before: lines, entries: Vec::new(), after: Vec::new() };
        proof {
            assert(r@.entries =~= Seq::<EntryModel>::empty());
            assert(r@.after =~= Seq::<Seq<char>>::empty());
        }
        r
    }

    /// Rebuild the three sections from lines holding a valid block.
    fn from_block(lines: &Vec<String>, s: usize, e: usize) -> (r: HostsFile)
        requires
            s < e < lines.len(),
            find_line(lines.deep_view(), true) == s,
            find_line(lines.deep_view(), false) == e,
        ensures
            r@ == parse_lines(lines.deep_view()),
    {
        let ghost ls = lines.deep_view();
        let mut before: Vec<String> = Vec::new();
        let mut k: usize = 0;
        while k < s
            invariant
                k <= s,
                s < e < lines.len(),
                ls == lines.deep_view(),
                before.deep_view() =~= ls.subrange(0, k as int),
            decreases s - k,
        {
            let ghost dv0 = before.deep_view();
            before.push(lines[k].clone());
            proof {
                assert(before.deep_view() =~= dv0.push(ls[k as int]));
                assert(before.deep_view() =~= ls.subrange(0, k + 1));
            }
            k = k + 1;
        }
        let mut entries: Vec<HostEntry> = Vec::new();
        let mut k: usize = s + 1;
        proof {
            assert(ls.subrange(s + 1, s + 1) =~= Seq::<Seq<char>>::empty());
            assert(entries.deep_view() =~= Seq::<EntryModel>::empty());
        }
        while k < e
            invariant
                s < k <= e,
                e < lines.len(),
                ls == lines.deep_view(),
                entries.deep_view() =~= entries_of(ls.subrange(s + 1, k as int)),
            decreases e - k,
        {
            let ghost prefix = ls.subrange(s + 1, k as int);
            let ghost line = ls[k as int];
            let t = trim_str(lines[k].as_str());
            let tlen = t.unicode_len();
            let ghost dv0 = entries.deep_view();
            if tlen == 0 {
                proof {
                    assert(entry_of_line(line) is None);
                }
            } else if t.get_char(0) == '#' {
                proof {
                    assert(entry_of_line(line) is None);
                }
            } else {
                let toks = split_tokens(t);
                if toks.len() >= 2 {
                    let entry = HostEntry { ip: toks[0].clone(), domain: toks[1].clone() };
                    proof {
                        assert(toks.deep_view()[0] == tokens_of(trim_spec(line))[0]);
                        assert(toks.deep_view()[1] == tokens_of(trim_spec(line))[1]);
                        assert(entry_of_line(line) == Some(entry@));
                    }
                    entries.push(entry);
                    proof {
                        assert(entries.deep_view() =~= dv0.push(entry@));
                    }
                } else {
                    proof {
                        assert(entry_of_line(line) is None);
                    }
                }
            }
            proof {
                let next = ls.subrange(s + 1, k + 1);
                assert(next =~= prefix.push(line));
                lemma_entries_of_push(prefix, line);
            }
            k = k + 1;
        }
        let mut after: Vec<String> = Vec::new();
        let mut k: usize = e + 1;
        while k < lines.len()
            invariant
                e + 1 <= k <= lines.len(),
                ls == lines.deep_view(),
                after.deep_view() =~= ls.subrange(e + 1, k as int),
            decreases lines.len() - k,
        {
            let ghost dv0 = after.deep_view();
            after.push(lines[k].clone());
            proof {
                assert(after.deep_view() =~= dv0.push(ls[k as int]));
                assert(after.deep_view() =~= ls.subrange(e + 1, k + 1));
            }
            k = k + 1;
        }
        let r = HostsFile { before, entries, after };
        proof {
            assert(r@.before =~= ls.take(s as int));
            assert(r@.after =~= ls.skip(e + 1));
            assert(r@ == parse_lines(ls));
        }
        r
    }

    /// Parse hosts-file content into structured form. Without a well-formed
    /// sentinel block the whole content is kept as unmanaged prefix lines.
    pub fn parse(content: &str) -> (r: HostsFile)
        ensures
            r@ == parse_spec(content@),
    {
        let lines = split_lines(content);
        let ghost ls = lines.deep_view();
        let si = find_marker_index(&lines, true);
        let ei = find_marker_index(&lines, false);
        match (si, ei) {
            (Some(s), Some(e)) => {
                if s < e {
                    Self::from_block(&lines, s, e)
                } else {
                    let r = Self::fail_open(lines);
                    proof {
                        assert(r@ == parse_lines(ls));
                    }
                    r
                }
            },
            _ => {
                let r = Self::fail_open(lines);
                proof {
                    assert(r@ == parse_lines(ls));
                }
                r
            },
        }
    }
}

pub proof fn lemma_unlines_single(l: Seq<char>)
    ensures
        unlines(seq![l]) == l + seq!['\n'],
{
    assert(seq![l].drop_first() =~= Seq::<Seq<char>>::empty());
    assert(unlines(Seq::<Seq<char>>::empty()) == Seq::<char>::empty());
    assert(unlines(seq![l]) =~= l + seq!['\n']);
}

impl HostsFile {
    /// Serialize back to hosts-file text: unmanaged lines verbatim, and the
    /// sentinel block only when at least one entry is held.
    pub fn serialize(&self) -> (r: String)
        ensures
            r@ == serialize_spec(self@),
    {
        let mut out = String::new();
        let mut k: usize = 0;
        proof {
            assert(self.before.deep_view().take(0) =~= Seq::<Seq<char>>::empty());
            assert(out@ =~= unlines(self.before.deep_view().take(0)));
        }
        while k < self.before.len()
            invariant
                k <= self.before.len(),
                out@ == unlines(self.before.deep_view().take(k as int)),
            decreases self.before.len() - k,
        {
            out.append(self.before[k].as_str());
            out.append("\n");
            proof {
                reveal_strlit("\n");
                let dv = self.before.deep_view();
                assert("\n"@ =~= seq!['\n']);
                assert(dv.take(k + 1) =~= dv.take(k as int) + seq![dv[k as int]]);
                lemma_unlines_concat(dv.take(k as int), seq![dv[k as int]]);
                lemma_unlines_single(dv[k as int]);
                assert(out@ =~= unlines(dv.take(k + 1)));
            }
            k = k + 1;
        }
        let ghost pre1 = out@;
        proof {
            assert(self.before.deep_view().take(self.before.len() as int) =~= self@.before);
            assert(pre1 == unlines(self@.before));
        }
        if self.entries.len() > 0 {
            out.append("# portmap-start (DO NOT EDIT - managed by portmap)");
            out.append("\n");
            let ghost blockpre = out@;
            let mut k: usize = 0;
            proof {
                reveal_strlit("\n");
                assert("\n"@ =~= seq!['\n']);
                assert(blockpre =~= pre1 + start_marker() + seq!['\n']);
                assert(entry_lines(self.entries.deep_view()).take(0) =~= Seq::<Seq<char>>::empty());
                assert(out@ =~= blockpre + unlines(
                    entry_lines(self.entries.deep_view()).take(0),
                ));
            }
            while k < self.entries.len()
                invariant
                    k <= self.entries.len(),
                    out@ == blockpre + unlines(entry_lines(self.entries.deep_view()).take(k as int)),
                decreases self.entries.len() - k,
            {
                out.append(self.entries[k].ip.as_str());
                out.append("\t");
                out.append(self.entries[k].domain.as_str());
                out.append("\n");
                proof {
                    reveal_strlit("\n");
                    reveal_strlit("\t");
                    let es = self.entries.deep_view();
                    let el = entry_lines(es);
                    assert(el[k as int] == entry_line(es[k as int]));
                    assert("\t"@ =~= seq!['\t']);
                    assert("\n"@ =~= seq!['\n']);
                    assert(el.take(k + 1) =~= el.take(k as int) + seq![el[k as int]]);
                    lemma_unlines_concat(el.take(k as int), seq![el[k as int]]);
                    lemma_unlines_single(el[k as int]);
                    assert(out@ =~= blockpre + unlines(el.take(k + 1)));
                }
                k = k + 1;
            }
            out.append("# portmap-end");
            out.append("\n");
            proof {
                reveal_strlit("\n");
                assert("\n"@ =~= seq!['\n']);
                let es = self.entries.deep_view();
                let el = entry_lines(es);
                assert(el.take(es.len() as int) =~= el);
                lemma_unlines_concat(seq![start_marker()], el);
                lemma_unlines_concat(seq![start_marker()] + el, seq![end_marker()]);
                lemma_unlines_single(start_marker());
                lemma_unlines_single(end_marker());
                assert(block_lines(es) =~= (seq![start_marker()] + el) + seq![end_marker()]);
                assert(unlines(block_lines(es)) =~= start_marker() + seq!['\n'] + unlines(el) + (
                end_marker() + seq!['\n']));
                assert(out@ =~= pre1 + unlines(block_lines(es)));
            }
        }
        let ghost pre2 = out@;
        let mut k: usize = 0;
        proof {
            assert(self.after.deep_view().take(0) =~= Seq::<Seq<char>>::empty());
            assert(out@ =~= pre2 + unlines(self.after.deep_view().take(0)));
        }
        while k < self.after.len()
            invariant
                k <= self.after.len(),
                out@ == pre2 + unlines(self.after.deep_view().take(k as int)),
            decreases self.after.len() - k,
        {
            out.append(self.after[k].as_str());
            out.append("\n");
            proof {
                reveal_strlit("\n");
                let dv = self.after.deep_view();
                assert("\n"@ =~= seq!['\n']);
                assert(dv.take(k + 1) =~= dv.take(k as int) + seq![dv[k as int]]);
                lemma_unlines_concat(dv.take(k as int), seq![dv[k as int]]);
                lemma_unlines_single(dv[k as int]);
                assert(out@ =~= pre2 + unlines(dv.take(k + 1)));
            }
            k = k + 1;
        }
        proof {
            assert(self.after.deep_view().take(self.after.len() as int) =~= self@.after);
            if self@.entries.len() == 0 {
                assert(out@ =~= serialize_spec(self@));
            } else {
                assert(out@ =~= serialize_spec(self@));
            }
        }
        out
    }

    /// Add an entry; refused without mutation when the domain exists.
    pub fn add_entry(&mut self, domain: &str, ip: &str) -> (added: bool)
        ensures
            added == !has_domain(old(self)@.entries, domain@),
            final(self)@.entries == add_model(old(self)@.entries, domain@, ip@),
            final(self)@.before == old(self)@.before,
            final(self)@.after == old(self)@.after,
    {
        let n = self.entries.len();
        let mut i: usize = 0;
        while i < n
            invariant
                *self == *old(self),
                n == self.entries.len(),
                0 <= i <= n,
                forall|j: int| 0 <= j < i ==> self.entries.deep_view()[j].domain != domain@,
            decreases n - i,
        {
            if str_eq_str(self.entries[i].domain.as_str(), domain) {
                proof {
                    assert(self@.entries[i as int].domain == domain@);
                    assert(has_domain(self@.entries, domain@));
                }
                return false;
            }
            i = i + 1;
        }
        let ghost dv0 = self.entries.deep_view();
        self.entries.push(HostEntry { ip: ip.to_owned(), domain: domain.to_owned() });
        proof {
            assert(self.entries.deep_view() =~= dv0.push(
                EntryModel { ip: ip@, domain: domain@ },
            ));
            assert(!has_domain(dv0, domain@));
        }
        true
    }

    /// Remove every entry with this domain, keeping the rest in order;
    /// reports whether anything was removed.
    pub fn remove_entry(&mut self, domain: &str) -> (removed: bool)
        ensures
            final(self)@.entries == remove_domain(old(self)@.entries, domain@),
            removed == has_domain(old(self)@.entries, domain@),
            final(self)@.before == old(self)@.before,
            final(self)@.after == old(self)@.after,
    {
        let ghost orig = old(self).entries.deep_view();
        let mut i: usize = 0;
        let mut removed = false;
        let ghost mut j: int = 0;
        proof {
            assert(self.entries.deep_view().take(0) =~= Seq::<EntryModel>::empty());
            assert(orig.take(0) =~= Seq::<EntryModel>::empty());
            assert(remove_domain(orig.take(0), domain@) == Seq::<EntryModel>::empty());
            assert(self.entries.deep_view() =~= self.entries.deep_view().take(0) + orig.skip(0));
        }
        while i < self.entries.len()
            invariant
                0 <= i <= self.entries.len(),
                i <= j <= orig.len(),
                self.before == old(self).before,
                self.after == old(self).after,
                self.entries.deep_view() =~= self.entries.deep_view().take(i as int) + orig.skip(
                    j,
                ),
                self.entries.deep_view().take(i as int) == remove_domain(orig.take(j), domain@),
                removed == has_domain(orig.take(j), domain@),
            decreases self.entries.len() - i,
        {
            let ghost dv = self.entries.deep_view();
            proof {
                assert(dv[i as int] == orig.skip(j)[0]);
                assert(dv[i as int] == orig[j]);
                assert(orig.take(j + 1) =~= orig.take(j).push(orig[j]));
                assert(orig.take(j + 1).drop_last() =~= orig.take(j));
                assert(orig.take(j + 1).last() == orig[j]);
            }
            if str_eq_str(self.entries[i].domain.as_str(), domain) {
                let _ = self.entries.remove(i);
                proof {
                    assert(self.entries.deep_view() =~= dv.remove(i as int));
                    assert(self.entries.deep_view() =~= dv.take(i as int) + orig.skip(j + 1));
                    assert(self.entries.deep_view().take(i as int) =~= dv.take(i as int));
                    assert(remove_domain(orig.take(j + 1), domain@) == remove_domain(
                        orig.take(j),
                        domain@,
                    ));
                    assert(has_domain(orig.take(j + 1), domain@));
                    j = j + 1;
                }
                removed = true;
            } else {
                proof {
                    assert(orig[j].domain != domain@);
                    assert(remove_domain(orig.take(j + 1), domain@) == remove_domain(
                        orig.take(j),
                        domain@,
                    ).push(orig[j]));
                    assert(self.entries.deep_view().take(i + 1) =~= dv.take(i as int).push(
                        orig[j],
                    ));
                    assert(has_domain(orig.take(j + 1), domain@) == has_domain(
                        orig.take(j),
                        domain@,
                    )) by {
                        if has_domain(orig.take(j + 1), domain@) {
                            let w = choose|w: int|
                                0 <= w < orig.take(j + 1).len() && #[trigger] orig.take(j + 1)[w].domain
                                    == domain@;
                            assert(w < j);
                            assert(orig.take(j)[w].domain == domain@);
                        }
                        if has_domain(orig.take(j), domain@) {
                            let w = choose|w: int|
                                0 <= w < orig.take(j).len() && #[trigger] orig.take(j)[w].domain
                                    == domain@;
                            assert(orig.take(j + 1)[w].domain == domain@);
                        }
                    }
                    j = j + 1;
                }
                i = i + 1;
            }
        }
        proof {
            assert(orig.skip(j).len() == 0);
            assert(j == orig.len());
            assert(orig.take(j) =~= orig);
            assert(self.entries.deep_view().take(i as int) =~= self.entries.deep_view());
        }
        removed
    }

    /// Remove all managed entries (for cleanup).
    pub fn remove_all(&mut self)
        ensures
            final(self)@.entries == Seq::<EntryModel>::empty(),
            final(self)@.before == old(self)@.before,
            final(self)@.after == old(self)@.after,
    {
        self.entries.clear();
        proof {
            assert(self.entries.deep_view() =~= Seq::<EntryModel>::empty());
        }
    }
}

/// A domain occurs among the entries exactly when it is counted there.
pub proof fn lemma_has_iff_count(es: Seq<EntryModel>, d: Seq<char>)
    ensures
        has_domain(es, d) <==> domain_count(es, d) > 0,
    decreases es.len(),
{
    if es.len() == 0 {
    } else {
        lemma_has_iff_count(es.drop_last(), d);
        if has_domain(es, d) {
            let w = choose|w: int| 0 <= w < es.len() && #[trigger] es[w].domain == d;
            if w < es.len() - 1 {
                assert(es.drop_last()[w].domain == d);
                assert(has_domain(es.drop_last(), d));
            }
            assert(domain_count(es, d) > 0);
        }
        if domain_count(es, d) > 0 {
            if es.last().domain == d {
                assert(es[es.len() - 1].domain == d);
            } else {
                let w = choose|w: int|
                    0 <= w < es.drop_last().len() && #[trigger] es.drop_last()[w].domain == d;
                assert(es[w].domain == d);
            }
            assert(has_domain(es, d));
        }
    }
}

/// Removing a domain that no entry carries changes nothing.
pub proof fn lemma_remove_absent(es: Seq<EntryModel>, d: Seq<char>)
    requires
        !has_domain(es, d),
    ensures
        remove_domain(es, d) == es,
    decreases es.len(),
{
    if es.len() > 0 {
        assert(es[es.len() - 1].domain != d);
        assert forall|w: int| 0 <= w < es.drop_last().len() implies #[trigger] es.drop_last()[w].domain
            != d by {
            assert(es.drop_last()[w] == es[w]);
        }
        lemma_remove_absent(es.drop_last(), d);
        assert(remove_domain(es, d) =~= es);
    }
}

/// Adding a domain twice leaves exactly one entry for it, whatever the two
/// offered addresses are; the second add is a no-op.
pub proof fn lemma_add_twice_single_entry(
    es: Seq<EntryModel>,
    d: Seq<char>,
    ip1: Seq<char>,
    ip2: Seq<char>,
)
    requires
        domain_count(es, d) <= 1,
    ensures
        add_model(add_model(es, d, ip1), d, ip2) == add_model(es, d, ip1),
        domain_count(add_model(add_model(es, d, ip1), d, ip2), d) == 1,
{
    lemma_has_iff_count(es, d);
    let once = add_model(es, d, ip1);
    if has_domain(es, d) {
        assert(once == es);
        assert(domain_count(once, d) == 1);
    } else {
        assert(once == es.push(EntryModel { ip: ip1, domain: d }));
        assert(once.drop_last() =~= es);
        assert(once.last().domain == d);
        assert(domain_count(once, d) == domain_count(es, d) + 1);
        lemma_has_iff_count(once, d);
    }
    lemma_has_iff_count(once, d);
    assert(has_domain(once, d));
    assert(add_model(once, d, ip2) == once);
}

/// Serializing with no entries emits only the unmanaged lines: no sentinel
/// marker can appear when none of those lines is itself a marker line.
pub proof fn lemma_serialize_empty_no_block(h: HostsModel)
    requires
        h.entries.len() == 0,
        before_wf(h.before),
        before_wf(h.after),
    ensures
        serialize_spec(h) == unlines(h.before + h.after),
        forall|i: int|
            0 <= i < lines_of(serialize_spec(h)).len() ==> !is_start_line(
                #[trigger] lines_of(serialize_spec(h))[i],
            ) && !is_end_line(lines_of(serialize_spec(h))[i]),
{
    lemma_unlines_concat(h.before, h.after);
    let all = h.before + h.after;
    assert forall|i: int| 0 <= i < all.len() implies nl_free(#[trigger] all[i]) by {
        if i < h.before.len() {
            assert(all[i] == h.before[i]);
        } else {
            assert(all[i] == h.after[i - h.before.len()]);
        }
    }
    lemma_lines_of_unlines(all);
    assert forall|i: int| 0 <= i < lines_of(serialize_spec(h)).len() implies !is_start_line(
        #[trigger] lines_of(serialize_spec(h))[i],
    ) && !is_end_line(lines_of(serialize_spec(h))[i]) by {
        assert(lines_of(serialize_spec(h))[i] == all[i]);
        if i < h.before.len() {
            assert(all[i] == h.before[i]);
        } else {
            assert(all[i] == h.after[i - h.before.len()]);
        }
    }
}

/// Round trip: parsing a serialized well-formed model recovers the entries
/// exactly, and every unmanaged line byte-for-byte. With entries present the
/// three sections come back as they were; with none, the unmanaged lines all
/// come back as prefix lines, since no block was written to split them.
pub proof fn lemma_parse_serialize_roundtrip(h: HostsModel)
    requires
        hosts_wf(h),
    ensures
        parse_spec(serialize_spec(h)).entries == h.entries,
        h.entries.len() > 0 ==> parse_spec(serialize_spec(h)).before == h.before && parse_spec(
            serialize_spec(h),
        ).after == h.after,
        h.entries.len() == 0 ==> parse_spec(serialize_spec(h)).before == h.before + h.after
            && parse_spec(serialize_spec(h)).after == Seq::<Seq<char>>::empty(),
        unlines(parse_spec(serialize_spec(h)).before) + unlines(parse_spec(serialize_spec(h)).after)
            == unlines(h.before) + unlines(h.after),
{
    let out = serialize_spec(h);
    lemma_marker_facts();
    if h.entries.len() == 0 {
        lemma_unlines_concat(h.before, h.after);
        let all = h.before + h.after;
        assert forall|i: int| 0 <= i < all.len() implies nl_free(#[trigger] all[i]) by {
            if i < h.before.len() {
                assert(all[i] == h.before[i]);
            } else {
                assert(all[i] == h.after[i - h.before.len()]);
            }
        }
        lemma_lines_of_unlines(all);
        assert(lines_of(out) == all);
        assert forall|i: int| 0 <= i < all.len() implies !marker_match(
            #[trigger] all[i],
            true,
        ) by {
            if i < h.before.len() {
                assert(all[i] == h.before[i]);
            } else {
                assert(all[i] == h.after[i - h.before.len()]);
            }
        }
        lemma_find_line_none(all, true);
        assert(parse_spec(out).before == all);
        assert(parse_spec(out).entries =~= h.entries);
        assert(unlines(Seq::<Seq<char>>::empty()) == Seq::<char>::empty());
        assert(unlines(all) + unlines(Seq::<Seq<char>>::empty()) =~= unlines(h.before) + unlines(
            h.after,
        ));
    } else {
        let el = entry_lines(h.entries);
        let bl = block_lines(h.entries);
        let nb = h.before.len() as int;
        let ne = h.entries.len() as int;
        assert forall|i: int| 0 <= i < ne implies nl_free(#[trigger] el[i]) && !is_start_line(
            el[i],
        ) && !is_end_line(el[i]) && trim_spec(el[i]) == el[i] by {
            assert(el[i] == entry_line(h.entries[i]));
            assert(entry_wf(h.entries[i]));
            lemma_entry_line_facts(h.entries[i]);
        }
        lemma_unlines_concat(h.before, bl);
        lemma_unlines_concat(h.before + bl, h.after);
        let all = (h.before + bl) + h.after;
        assert(out =~= unlines(all));
        assert forall|i: int| 0 <= i < all.len() implies nl_free(#[trigger] all[i]) by {
            if i < nb {
                assert(all[i] == h.before[i]);
            } else if i == nb {
                assert(all[i] == start_marker());
            } else if i < nb + 1 + ne {
                assert(all[i] == el[i - nb - 1]);
            } else if i == nb + 1 + ne {
                assert(all[i] == end_marker());
            } else {
                assert(all[i] == h.after[i - (nb + 2 + ne)]);
            }
        }
        lemma_lines_of_unlines(all);
        assert(lines_of(out) == all);
        assert(all[nb] == start_marker());
        assert(is_start_line(all[nb]));
        assert forall|i: int| 0 <= i < nb implies !marker_match(#[trigger] all[i], true) by {
            assert(all[i] == h.before[i]);
        }
        lemma_find_line_at(all, true, nb);
        assert(all[nb + 1 + ne] == end_marker());
        assert(is_end_line(all[nb + 1 + ne]));
        assert forall|i: int| 0 <= i < nb + 1 + ne implies !marker_match(
            #[trigger] all[i],
            false,
        ) by {
            if i < nb {
                assert(all[i] == h.before[i]);
            } else if i == nb {
                assert(all[i] == start_marker());
                assert(trim_spec(start_marker()) == start_marker());
            } else {
                assert(all[i] == el[i - nb - 1]);
            }
        }
        lemma_find_line_at(all, false, nb + 1 + ne);
        assert(all.take(nb) =~= h.before);
        assert(all.subrange(nb + 1, nb + 1 + ne) =~= el);
        lemma_entries_of_entry_lines(h.entries);
        assert(all.skip(nb + 1 + ne + 1) =~= h.after);
        assert(parse_spec(out).entries == h.entries);
        assert(parse_spec(out).before == h.before);
        assert(parse_spec(out).after == h.after);
    }
}

/// The cleanup transform: parse, drop every managed entry, serialize.
pub open spec fn restore_content(c: Seq<char>) -> Seq<char> {
    serialize_spec(
        HostsModel {
            before: parse_spec(c).before,
            entries: Seq::empty(),
            after: parse_spec(c).after,
        },
    )
}

/// Cleaning up twice is the same as cleaning up once, so a race between two
/// cleanup paths is harmless; the only proviso is that no second start
/// marker hides below the block.
pub proof fn lemma_cleanup_idempotent(c: Seq<char>)
    requires
        find_line(parse_spec(c).after, true) == -1,
    ensures
        parse_spec(restore_content(c)).entries == Seq::<EntryModel>::empty(),
        restore_content(restore_content(c)) == restore_content(c),
{
    let ls = lines_of(c);
    lemma_lines_nl_free(c);
    let m = parse_spec(c);
    let s = find_line(ls, true);
    let e = find_line(ls, false);
    lemma_find_line_props(ls, true);
    lemma_find_line_props(ls, false);
    lemma_find_line_props(m.after, true);
    let all = m.before + m.after;
    lemma_unlines_concat(m.before, m.after);
    assert(restore_content(c) == unlines(all));
    if 0 <= s && s < e {
        assert(m.before == ls.take(s));
        assert(m.after == ls.skip(e + 1));
        assert forall|i: int| 0 <= i < all.len() implies nl_free(#[trigger] all[i])
            && !marker_match(all[i], true) by {
            if i < s {
                assert(all[i] == ls[i]);
            } else {
                assert(all[i] == m.after[i - s]);
                assert(m.after[i - s] == ls[e + 1 + (i - s)]);
            }
        }
        lemma_lines_of_unlines(all);
        lemma_find_line_none(all, true);
        assert(parse_spec(restore_content(c)).before == all);
        assert(parse_spec(restore_content(c)).entries =~= Seq::<EntryModel>::empty());
        assert(parse_spec(restore_content(c)).after =~= Seq::<Seq<char>>::empty());
        assert(unlines(Seq::<Seq<char>>::empty()) == Seq::<char>::empty());
        lemma_unlines_concat(all, Seq::empty());
        assert(all + Seq::<Seq<char>>::empty() =~= all);
        assert(restore_content(restore_content(c)) == unlines(all));
    } else {
        assert(m.before == ls);
        assert(m.after =~= Seq::<Seq<char>>::empty());
        assert(all =~= ls);
        assert forall|i: int| 0 <= i < all.len() implies nl_free(#[trigger] all[i]) by {
            assert(all[i] == ls[i]);
        }
        lemma_lines_of_unlines(all);
        assert(lines_of(restore_content(c)) == ls);
        assert(parse_spec(restore_content(c)).before == ls);
        assert(parse_spec(restore_content(c)).entries =~= Seq::<EntryModel>::empty());
        assert(parse_spec(restore_content(c)).after =~= Seq::<Seq<char>>::empty());
        assert(unlines(Seq::<Seq<char>>::empty()) == Seq::<char>::empty());
        assert(restore_content(restore_content(c)) == unlines(ls + Seq::<Seq<char>>::empty()));
        assert(ls + Seq::<Seq<char>>::empty() =~= ls);
        assert(restore_content(c) == unlines(ls));
    }
}


/// Content whose lines hide no marker surprises: either a well-formed block
/// with no second start marker below it, or no marker lines at all.
pub open spec fn content_tidy(content: Seq<char>) -> bool {
    let ls = lines_of(content);
    let s = find_line(ls, true);
    let e = find_line(ls, false);
    if 0 <= s && s < e {
        find_line(ls.skip(e + 1), true) == -1
    } else {
        forall|i: int|
            0 <= i < ls.len() ==> !is_start_line(#[trigger] ls[i]) && !is_end_line(ls[i])
    }
}

/// Whatever entry a newline-free line yields is well-formed.
pub proof fn lemma_entry_of_line_wf(l: Seq<char>)
    requires
        nl_free(l),
    ensures
        entry_of_line(l) matches Some(e) ==> entry_wf(e),
{
    let t = trim_spec(l);
    lemma_trim_props(l);
    if entry_of_line(l) is Some {
        assert forall|j: int| 0 <= j < t.len() implies #[trigger] t[j] != '\n' by {
            assert(exists|i: int| 0 <= i < l.len() && l[i] == t[j]);
            let i = choose|i: int| 0 <= i < l.len() && l[i] == t[j];
            assert(l[i] != '\n');
        }
        assert(nl_free(t));
        lemma_tokens_props(t);
        assert(!is_ws(t[0]));
        assert(token_len(t) >= 1);
        crate::hosts::text::lemma_token_len_le(t);
        let tk = tokens_of(t);
        assert(tk[0] == t.take(token_len(t) as int));
        assert(t.take(token_len(t) as int)[0] == t[0]);
        assert(tk[0][0] == t[0]);
        assert(t[0] != '#');
    }
}

/// The entries read from newline-free lines are all well-formed.
pub proof fn lemma_entries_of_wf(ls: Seq<Seq<char>>)
    requires
        forall|i: int| 0 <= i < ls.len() ==> nl_free(#[trigger] ls[i]),
    ensures
        entries_wf(entries_of(ls)),
    decreases ls.len(),
{
    if ls.len() > 0 {
        assert forall|i: int| 0 <= i < ls.drop_first().len() implies nl_free(
            #[trigger] ls.drop_first()[i],
        ) by {
            assert(ls.drop_first()[i] == ls[i + 1]);
        }
        lemma_entries_of_wf(ls.drop_first());
        lemma_entry_of_line_wf(ls[0]);
        let rest = entries_of(ls.drop_first());
        assert forall|k: int| 0 <= k < entries_of(ls).len() implies entry_wf(
            #[trigger] entries_of(ls)[k],
        ) by {
            match entry_of_line(ls[0]) {
                Some(e) => {
                    if k == 0 {
                        assert(entries_of(ls)[0] == e);
                    } else {
                        assert(entries_of(ls)[k] == rest[k - 1]);
                    }
                },
                None => {
                    assert(entries_of(ls)[k] == rest[k]);
                },
            }
        }
    }
}

/// Parsing tidy content gives a well-formed model, so the round-trip law
/// applies to it after any sequence of add and remove operations.
pub proof fn lemma_parse_wf(content: Seq<char>)
    requires
        content_tidy(content),
    ensures
        hosts_wf(parse_spec(content)),
{
    let ls = lines_of(content);
    lemma_lines_nl_free(content);
    let s = find_line(ls, true);
    let e = find_line(ls, false);
    lemma_find_line_props(ls, true);
    lemma_find_line_props(ls, false);
    let m = parse_spec(content);
    if 0 <= s && s < e {
        assert forall|i: int| 0 <= i < m.before.len() implies nl_free(#[trigger] m.before[i])
            && !is_start_line(m.before[i]) && !is_end_line(m.before[i]) by {
            assert(m.before[i] == ls[i]);
            assert(!marker_match(ls[i], true));
            assert(!marker_match(ls[i], false));
        }
        assert forall|i: int| 0 <= i < ls.subrange(s + 1, e).len() implies nl_free(
            #[trigger] ls.subrange(s + 1, e)[i],
        ) by {
            assert(ls.subrange(s + 1, e)[i] == ls[s + 1 + i]);
        }
        lemma_entries_of_wf(ls.subrange(s + 1, e));
        lemma_find_line_props(ls.skip(e + 1), true);
        assert forall|i: int| 0 <= i < m.after.len() implies nl_free(#[trigger] m.after[i])
            && !is_start_line(m.after[i]) by {
            assert(m.after[i] == ls[e + 1 + i]);
            assert(m.after[i] == ls.skip(e + 1)[i]);
            assert(!marker_match(ls.skip(e + 1)[i], true));
        }
    } else {
        assert(m.before == ls);
        assert forall|i: int| 0 <= i < m.before.len() implies nl_free(#[trigger] m.before[i])
            && !is_start_line(m.before[i]) && !is_end_line(m.before[i]) by {
            assert(!is_start_line(ls[i]) && !is_end_line(ls[i]));
        }
    }
}

/// Removing a domain keeps the remaining entries well-formed.
pub proof fn lemma_remove_keeps_wf(es: Seq<EntryModel>, d: Seq<char>)
    requires
        entries_wf(es),
    ensures
        entries_wf(remove_domain(es, d)),
    decreases es.len(),
{
    if es.len() > 0 {
        assert forall|i: int| 0 <= i < es.drop_last().len() implies entry_wf(
            #[trigger] es.drop_last()[i],
        ) by {
            assert(es.drop_last()[i] == es[i]);
        }
        lemma_remove_keeps_wf(es.drop_last(), d);
        let rest = remove_domain(es.drop_last(), d);
        if es.last().domain != d {
            assert(entry_wf(es.last()));
            assert forall|k: int| 0 <= k < remove_domain(es, d).len() implies entry_wf(
                #[trigger] remove_domain(es, d)[k],
            ) by {
                if k < rest.len() {
                    assert(remove_domain(es, d)[k] == rest[k]);
                } else {
                    assert(remove_domain(es, d)[k] == es.last());
                }
            }
        }
    }
}

/// One more block line appends its entry, if it has one.
pub proof fn lemma_entries_of_push(ls: Seq<Seq<char>>, l: Seq<char>)
    ensures
        entries_of(ls.push(l)) == entries_of(ls) + match entry_of_line(l) {
            Some(e) => seq![e],
            None => Seq::<EntryModel>::empty(),
        },
    decreases ls.len(),
{
    let p = ls.push(l);
    if ls.len() == 0 {
        assert(p[0] == l);
        assert(p.drop_first() =~= Seq::<Seq<char>>::empty());
        assert(entries_of(Seq::<Seq<char>>::empty()) == Seq::<EntryModel>::empty());
        assert(entries_of(p.drop_first()) == Seq::<EntryModel>::empty());
        match entry_of_line(l) {
            Some(e) => {
                assert(entries_of(p) =~= entries_of(ls) + seq![e]);
            },
            None => {
                assert(entries_of(p) =~= entries_of(ls));
            },
        }
    } else {
        assert(p[0] == ls[0]);
        assert(p.drop_first() =~= ls.drop_first().push(l));
        lemma_entries_of_push(ls.drop_first(), l);
        match entry_of_line(l) {
            Some(e) => {
                assert(entries_of(p) =~= entries_of(ls) + seq![e]);
            },
            None => {
                assert(entries_of(p) =~= entries_of(ls));
            },
        }
    }
}

} // verus!
