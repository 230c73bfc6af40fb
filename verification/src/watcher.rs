//! The file-watcher debouncer: raw filesystem events, collected over one
//! burst, become per-path event groups and then a definite set of write and
//! delete actions — unless the echo-suppression flag is set, in which case
//! the whole burst is discarded and nothing leaves the node.

use vstd::prelude::*;
use vstd::utf8::{
    decode_utf8, encode_utf8, is_char_boundary, is_continuation_byte, is_leading_byte_width_1,
    length_of_first_scalar, pop_first_scalar, valid_first_scalar, valid_utf8, valid_utf8_split,
};
use crate::json::bytes_to_string;
use crate::hash::{calculate_file_hash, sha256_hex};
use crate::state::{FileEntryV, SyncState};
use crate::codec::{pairs_view, strs_view};

verus! {

/// The kind of one raw filesystem event.
#[derive(PartialEq, Eq, Structural, Debug, Clone, Copy)]
pub enum FsEventKind {
    Create,
    Modify,
    Remove,
}

/// One raw filesystem event: an absolute path and what happened to it.
pub struct FsEvent {
    pub path: String,
    pub kind: FsEventKind,
}

/// The events one path saw during a burst.
pub struct PathEvents {
    pub path: String,
    pub saw_create: bool,
    pub saw_remove: bool,
    pub saw_modify: bool,
}

/// Whether some event names the path.
pub open spec fn event_path_in(events: Seq<FsEvent>, p: Seq<char>) -> bool {
    exists|i: int| 0 <= i < events.len() && #[trigger] events[i].path@ == p
}

/// Whether one of the first `n` events names the path.
pub open spec fn ev_in_prefix(events: Seq<FsEvent>, n: int, p: Seq<char>) -> bool {
    exists|j: int| 0 <= j < n && #[trigger] events[j].path@ == p
}

/// Whether some event names the path with the given kind.
pub open spec fn saw_kind(events: Seq<FsEvent>, p: Seq<char>, k: FsEventKind) -> bool {
    exists|i: int| 0 <= i < events.len() && #[trigger] events[i].path@ == p && events[i].kind == k
}

/// Whether some group carries the path.
pub open spec fn has_group(groups: Seq<PathEvents>, p: Seq<char>) -> bool {
    exists|i: int| 0 <= i < groups.len() && #[trigger] groups[i].path@ == p
}

/// No path occurs in two groups.
pub open spec fn distinct_groups(groups: Seq<PathEvents>) -> bool {
    forall|i: int, j: int| 0 <= i < j < groups.len() ==> groups[i].path@ != groups[j].path@
}

/// The flags a group must carry: exactly the kinds its path saw.
pub open spec fn group_correct(events: Seq<FsEvent>, g: PathEvents) -> bool {
    &&& g.saw_create == saw_kind(events, g.path@, FsEventKind::Create)
    &&& g.saw_remove == saw_kind(events, g.path@, FsEventKind::Remove)
    &&& g.saw_modify == saw_kind(events, g.path@, FsEventKind::Modify)
}

proof fn lemma_saw_extend(events: Seq<FsEvent>, path: Seq<char>, i: int, k2: FsEventKind)
    requires
        0 <= i < events.len(),
    ensures
        (exists|j: int|
            0 <= j < i + 1 && #[trigger] events[j].path@ == path && events[j].kind == k2) <==> ((
        exists|j: int| 0 <= j < i && #[trigger] events[j].path@ == path && events[j].kind == k2)
            || (events[i].path@ == path && events[i].kind == k2)),
{
    if exists|j: int| 0 <= j < i + 1 && #[trigger] events[j].path@ == path && events[j].kind
        == k2 {
        let j = choose|j: int|
            0 <= j < i + 1 && #[trigger] events[j].path@ == path && events[j].kind == k2;
        if j < i {
            assert(exists|j2: int|
                0 <= j2 < i && #[trigger] events[j2].path@ == path && events[j2].kind == k2);
        }
    }
    if exists|j: int| 0 <= j < i && #[trigger] events[j].path@ == path && events[j].kind == k2 {
        let j = choose|j: int|
            0 <= j < i && #[trigger] events[j].path@ == path && events[j].kind == k2;
        assert(0 <= j < i + 1 && events[j].path@ == path && events[j].kind == k2);
    }
    if events[i].path@ == path && events[i].kind == k2 {
        assert(0 <= i < i + 1 && events[i].path@ == path && events[i].kind == k2);
    }
}

/// Compute the kind flags one path saw over the whole burst.
fn flags_for(events: &Vec<FsEvent>, path: &String) -> (r: (bool, bool, bool))
    ensures
        r.0 == saw_kind(events@, path@, FsEventKind::Create),
        r.1 == saw_kind(events@, path@, FsEventKind::Remove),
        r.2 == saw_kind(events@, path@, FsEventKind::Modify),
{
    let mut c = false;
    let mut rm = false;
    let mut m = false;
    let mut i: usize = 0;
    while i < events.len()
        invariant
            i <= events@.len(),
            c == exists|j: int|
                0 <= j < i && #[trigger] events@[j].path@ == path@ && events@[j].kind
                    == FsEventKind::Create,
            rm == exists|j: int|
                0 <= j < i && #[trigger] events@[j].path@ == path@ && events@[j].kind
                    == FsEventKind::Remove,
            m == exists|j: int|
                0 <= j < i && #[trigger] events@[j].path@ == path@ && events@[j].kind
                    == FsEventKind::Modify,
        decreases events@.len() - i,
    {
        if crate::json::str_eq(events[i].path.as_str(), path.as_str()) {
            match events[i].kind {
                FsEventKind::Create => {
                    c = true;
                },
                FsEventKind::Remove => {
                    rm = true;
                },
                FsEventKind::Modify => {
                    m = true;
                },
            }
        }
        proof {
            lemma_saw_extend(events@, path@, i as int, FsEventKind::Create);
            lemma_saw_extend(events@, path@, i as int, FsEventKind::Remove);
            lemma_saw_extend(events@, path@, i as int, FsEventKind::Modify);
        }
        i = i + 1;
    }
    (c, rm, m)
}

/// Group a burst of raw events by path, recording for each path which event
/// kinds it saw. Each path appears in exactly one group.
pub fn group_events(events: &Vec<FsEvent>) -> (r: Vec<PathEvents>)
    ensures
        distinct_groups(r@),
        forall|p: Seq<char>| has_group(r@, p) <==> event_path_in(events@, p),
        forall|i: int| 0 <= i < r@.len() ==> group_correct(events@, #[trigger] r@[i]),
{
    let mut groups: Vec<PathEvents> = Vec::new();
    let mut i: usize = 0;
    while i < events.len()
        invariant
            i <= events@.len(),
            distinct_groups(groups@),
            forall|p: Seq<char>|
                #[trigger] has_group(groups@, p) <==> ev_in_prefix(events@, i as int, p),
            forall|k: int| 0 <= k < groups@.len() ==> group_correct(events@, #[trigger] groups@[k]),
        decreases events@.len() - i,
    {
        let path = &events[i].path;
        let mut present = false;
        let mut j: usize = 0;
        while j < groups.len()
            invariant
                j <= groups@.len(),
                present == exists|k: int| 0 <= k < j && #[trigger] groups@[k].path@ == path@,
            decreases groups@.len() - j,
        {
            if crate::json::str_eq(groups[j].path.as_str(), path.as_str()) {
                present = true;
            }
            proof {
                if exists|k: int| 0 <= k < j + 1 && #[trigger] groups@[k].path@ == path@ {
                    let k = choose|k: int|
                        0 <= k < j + 1 && #[trigger] groups@[k].path@ == path@;
                    if k < j {
                        assert(exists|k2: int|
                            0 <= k2 < j && #[trigger] groups@[k2].path@ == path@);
                    }
                }
            }
            j = j + 1;
        }
        if !present {
            let (c, rm, m) = flags_for(events, path);
            let ghost groups0 = groups@;
            let g = PathEvents { path: path.clone(), saw_create: c, saw_remove: rm, saw_modify: m };
            groups.push(g);
            proof {
                assert(groups@.last().path@ == events@[i as int].path@);
                assert forall|p: Seq<char>|
                    #[trigger] has_group(groups@, p) <==> (has_group(groups0, p) || events@[
                        i as int].path@ == p) by {
                    if has_group(groups@, p) {
                        let k = choose|k: int|
                            0 <= k < groups@.len() && #[trigger] groups@[k].path@ == p;
                        if k < groups0.len() {
                            assert(groups0[k].path@ == p);
                        }
                    }
                    if has_group(groups0, p) {
                        let k = choose|k: int|
                            0 <= k < groups0.len() && #[trigger] groups0[k].path@ == p;
                        assert(groups@[k].path@ == p);
                    }
                    if events@[i as int].path@ == p {
                        assert(groups@[groups0.len() as int].path@ == p);
                    }
                }
                assert(!has_group(groups0, events@[i as int].path@));
                assert(distinct_groups(groups@)) by {
                    assert forall|a: int, b: int| 0 <= a < b < groups@.len() implies groups@[
                        a].path@ != groups@[b].path@ by {
                        if b == groups0.len() {
                            if groups@[a].path@ == groups@[b].path@ {
                                assert(has_group(groups0, events@[i as int].path@));
                            }
                        }
                    }
                }
            }
        }
        proof {
            assert forall|p: Seq<char>|
                #[trigger] ev_in_prefix(events@, i + 1, p) <==> (ev_in_prefix(events@, i as int, p)
                    || events@[i as int].path@ == p) by {
                if ev_in_prefix(events@, i + 1, p) {
                    let j2 = choose|j2: int|
                        0 <= j2 < i + 1 && #[trigger] events@[j2].path@ == p;
                    if j2 < i {
                        assert(ev_in_prefix(events@, i as int, p));
                    }
                }
                if ev_in_prefix(events@, i as int, p) {
                    let j2 = choose|j2: int| 0 <= j2 < i && #[trigger] events@[j2].path@ == p;
                    assert(ev_in_prefix(events@, i + 1, p));
                }
                if events@[i as int].path@ == p {
                    assert(ev_in_prefix(events@, i + 1, p));
                }
            }
        }
        i = i + 1;
    }
    proof {
        assert forall|p: Seq<char>|
            #[trigger] has_group(groups@, p) <==> event_path_in(events@, p) by {
            assert(ev_in_prefix(events@, events@.len() as int, p) == event_path_in(events@, p));
        }
    }
    groups
}

/// What a burst decides for one path, from whether the file exists now and
/// which event kinds were seen: a write (create, modify, or the
/// create-remove pair an atomic editor save leaves behind), a delete, or
/// nothing.
pub open spec fn action_of(
    exists_now: bool,
    saw_create: bool,
    saw_remove: bool,
    saw_modify: bool,
) -> WatchAction {
    if exists_now && saw_create {
        WatchAction::Write
    } else if exists_now && !saw_create && saw_modify {
        WatchAction::Write
    } else if !exists_now && saw_remove {
        WatchAction::Delete
    } else {
        WatchAction::Ignore
    }
}

/// The verdict for one path of a burst.
#[derive(PartialEq, Eq, Structural, Debug, Clone, Copy)]
pub enum WatchAction {
    Write,
    Delete,
    Ignore,
}

/// Decide what one path's burst means. The table: a file that exists and saw
/// a create is written (a create-remove pair is an editor's atomic save and
/// counts as a modify); a file that exists and saw only modifies is written;
/// a file that is gone and saw a remove is deleted; anything else is noise.
pub fn decide_action(exists_now: bool, saw_create: bool, saw_remove: bool, saw_modify: bool) -> (r:
    WatchAction)
    ensures
        r == action_of(exists_now, saw_create, saw_remove, saw_modify),
{
    if exists_now && saw_create {
        WatchAction::Write
    } else if exists_now && !saw_create && saw_modify {
        WatchAction::Write
    } else if !exists_now && saw_remove {
        WatchAction::Delete
    } else {
        WatchAction::Ignore
    }
}

/// A path strictly inside the root: the root, a separator, and a non-empty
/// remainder, compared over UTF-8 bytes.
pub open spec fn strictly_within(root: Seq<char>, p: Seq<char>) -> bool {
    let rb = encode_utf8(root);
    let pb = encode_utf8(p);
    pb.len() > rb.len() + 1 && pb.take(rb.len() as int) == rb && pb[rb.len() as int] == 0x2F
}

/// The workspace-relative form of a path strictly inside the root.
pub open spec fn rel_of(root: Seq<char>, p: Seq<char>) -> Seq<char> {
    let rb = encode_utf8(root);
    let pb = encode_utf8(p);
    decode_utf8(pb.subrange(rb.len() as int + 1, pb.len() as int))
}

/// After an ASCII byte, the next position is a character boundary.
proof fn lemma_boundary_after_ascii(b: Seq<u8>, j: int)
    requires
        valid_utf8(b),
        0 <= j < b.len(),
        b[j] < 0x80,
    ensures
        is_char_boundary(b, j + 1),
    decreases b.len(),
{
    let l = length_of_first_scalar(b);
    if j == 0 {
        assert(is_leading_byte_width_1(b[0]));
        assert(l == 1);
        reveal_with_fuel(is_char_boundary, 2);
        assert(is_char_boundary(pop_first_scalar(b), 0));
    } else {
        assert(valid_first_scalar(b));
        assert(1 <= l <= b.len());
        if j < l {
            // Positions 1..l of a multi-byte character are continuation
            // bytes, all at least 0x80, so j cannot lie there.
            assert(is_continuation_byte(b[j]));
            assert(false);
        } else {
            let rest = pop_first_scalar(b);
            assert(rest[j - l] == b[j]);
            lemma_boundary_after_ascii(rest, j - l);
        }
    }
}

/// Make a path workspace-relative: strip the root and the separator after
/// it. Returns nothing when the path is not strictly inside the root.
pub fn relative_to(root: &str, p: &str) -> (r: Option<String>)
    ensures
        r is Some <==> strictly_within(root@, p@),
        r is Some ==> r->0@ == rel_of(root@, p@),
{
    let rb = root.as_bytes();
    let pb = p.as_bytes();
    if pb.len() <= rb.len() || pb.len() - rb.len() <= 1 {
        return None;
    }
    let mut i: usize = 0;
    while i < rb.len()
        invariant
            i <= rb@.len(),
            rb@.len() + 1 < pb@.len(),
            rb@ == encode_utf8(root@),
            pb@ == encode_utf8(p@),
            forall|j: int| 0 <= j < i ==> pb@[j] == rb@[j],
        decreases rb@.len() - i,
    {
        if pb[i] != rb[i] {
            proof {
                assert(pb@.take(rb@.len() as int)[i as int] == pb@[i as int]);
                assert(pb@.take(rb@.len() as int) != rb@);
            }
            return None;
        }
        i = i + 1;
    }
    proof {
        assert(pb@.take(rb@.len() as int) =~= rb@);
    }
    if pb[rb.len()] != 0x2F {
        return None;
    }
    let start = rb.len() + 1;
    let mut suffix: Vec<u8> = Vec::new();
    let mut k: usize = start;
    while k < pb.len()
        invariant
            start <= k <= pb@.len(),
            start == rb@.len() + 1,
            pb@ == encode_utf8(p@),
            suffix@ == pb@.subrange(start as int, k as int),
        decreases pb@.len() - k,
    {
        suffix.push(pb[k]);
        proof {
            assert(suffix@ =~= pb@.subrange(start as int, k + 1));
        }
        k = k + 1;
    }
    proof {
        vstd::utf8::encode_utf8_valid_utf8(p@);
        lemma_boundary_after_ascii(pb@, start - 1);
        valid_utf8_split(pb@, start as int);
        assert(valid_utf8(pb@.subrange(start as int, pb@.len() as int)));
        assert(suffix@ =~= pb@.subrange(start as int, pb@.len() as int));
    }
    match bytes_to_string(suffix) {
        Some(s) => Some(s),
        None => {
            // Unreachable: the suffix of a valid string split at a character
            // boundary is valid UTF-8.
            proof {
                assert(false);
            }
            None
        },
    }
}

/// Whether the needle occurs as a contiguous run inside the haystack.
pub open spec fn has_sub(h: Seq<u8>, n: Seq<u8>) -> bool {
    exists|k: int| 0 <= k && k + n.len() <= h.len() && #[trigger] h.subrange(k, k + n.len()) == n
}

/// Substring search over bytes.
fn contains_sub(h: &[u8], n: &[u8]) -> (r: bool)
    ensures
        r == has_sub(h@, n@),
{
    let hl = h.len();
    let nl = n.len();
    if nl > hl {
        proof {
            if has_sub(h@, n@) {
                let k = choose|k: int|
                    0 <= k && k + n@.len() <= h@.len() && #[trigger] h@.subrange(k, k + n@.len())
                        == n@;
            }
        }
        return false;
    }
    let mut k: usize = 0;
    while k <= hl - nl
        invariant
            n@.len() <= h@.len(),
            hl == h@.len(),
            nl == n@.len(),
            k <= h@.len() - n@.len() + 1,
            forall|k2: int|
                0 <= k2 < k ==> #[trigger] h@.subrange(k2, k2 + n@.len()) != n@,
        decreases h@.len() - n@.len() + 1 - k,
    {
        let mut j: usize = 0;
        let mut matched = true;
        while j < nl
            invariant
                j <= n@.len(),
                hl == h@.len(),
                nl == n@.len(),
                k + n@.len() <= h@.len(),
                matched == (forall|j2: int| 0 <= j2 < j ==> h@[k + j2] == n@[j2]),
            decreases n@.len() - j,
        {
            if h[k + j] != n[j] {
                matched = false;
                proof {
                    assert(h@[k + j as int] != n@[j as int]);
                }
                j = nl;
            } else {
                j = j + 1;
            }
        }
        if matched {
            proof {
                assert(h@.subrange(k as int, k + n@.len()) =~= n@);
            }
            return true;
        }
        proof {
            if h@.subrange(k as int, k + n@.len()) == n@ {
                let j2 = choose|j2: int| 0 <= j2 < n@.len() && h@[k + j2] != n@[j2];
                assert(h@.subrange(k as int, k + n@.len())[j2] == h@[k + j2]);
            }
        }
        k = k + 1;
    }
    proof {
        if has_sub(h@, n@) {
            let k2 = choose|k2: int|
                0 <= k2 && k2 + n@.len() <= h@.len() && #[trigger] h@.subrange(k2, k2 + n@.len())
                    == n@;
        }
    }
    false
}

/// Whether a path contains the storage folder's name and must be ignored.
pub fn contains_synclite(p: &str) -> (r: bool)
    ensures
        r == has_sub(encode_utf8(p@), encode_utf8(".synclite"@)),
{
    contains_sub(p.as_bytes(), ".synclite".as_bytes())
}

/// The observations a burst collected about one path: the grouped event
/// flags, whether the file exists now, and its content if it was readable.
pub struct PathReport {
    pub path: String,
    pub exists_now: bool,
    pub saw_create: bool,
    pub saw_remove: bool,
    pub saw_modify: bool,
    pub content: Option<String>,
}

/// The effect of one path's report: the new state mapping, the content to
/// send, and the path to delete, if any.
pub open spec fn report_effect(
    m: Map<Seq<char>, FileEntryV>,
    rep: PathReport,
    root: Seq<char>,
    now: u64,
) -> (Map<Seq<char>, FileEntryV>, Seq<(Seq<char>, Seq<char>)>, Seq<Seq<char>>) {
    if has_sub(encode_utf8(rep.path@), encode_utf8(".synclite"@)) {
        (m, Seq::empty(), Seq::empty())
    } else if !strictly_within(root, rep.path@) {
        (m, Seq::empty(), Seq::empty())
    } else {
        let rel = rel_of(root, rep.path@);
        match action_of(rep.exists_now, rep.saw_create, rep.saw_remove, rep.saw_modify) {
            WatchAction::Write => match rep.content {
                Some(content) => (
                    m.insert(
                        rel,
                        FileEntryV {
                            hash: Some(sha256_hex(encode_utf8(content@))),
                            is_deleted: false,
                            last_modified: now,
                        },
                    ),
                    seq![(rel, content@)],
                    Seq::empty(),
                ),
                None => (m, Seq::empty(), Seq::empty()),
            },
            WatchAction::Delete => (
                m.insert(rel, FileEntryV { hash: None, is_deleted: true, last_modified: now }),
                Seq::empty(),
                seq![rel],
            ),
            WatchAction::Ignore => (m, Seq::empty(), Seq::empty()),
        }
    }
}

/// The effect of a whole burst, report by report.
pub open spec fn burst_fold(
    m: Map<Seq<char>, FileEntryV>,
    reports: Seq<PathReport>,
    root: Seq<char>,
    now: u64,
) -> (Map<Seq<char>, FileEntryV>, Seq<(Seq<char>, Seq<char>)>, Seq<Seq<char>>)
    decreases reports.len(),
{
    if reports.len() == 0 {
        (m, Seq::empty(), Seq::empty())
    } else {
        let (m1, w1, d1) = report_effect(m, reports[0], root, now);
        let (m2, w2, d2) = burst_fold(m1, reports.skip(1), root, now);
        (m2, w1 + w2, d1 + d2)
    }
}

/// Process one debounced burst: apply each report's verdict to the sync
/// state and collect what must go out to the other side. A burst that
/// arrives while echo suppression is set is discarded whole: the state does
/// not change and nothing is sent.
#[verifier::rlimit(100)]
#[verifier::spinoff_prover]
pub fn process_burst(
    state: &mut SyncState,
    root: &String,
    reports: &Vec<PathReport>,
    suppressed: bool,
    now: u64,
) -> (r: (Vec<(String, String)>, Vec<String>))
    requires
        old(state).wf(),
    ensures
        final(state).wf(),
        suppressed ==> final(state)@ == old(state)@ && r.0@.len() == 0 && r.1@.len() == 0,
        !suppressed ==> ({
            let (fm, fw, fd) = burst_fold(old(state).as_map(), reports@, root@, now);
            &&& final(state).as_map() == fm
            &&& pairs_view(r.0@) == fw
            &&& strs_view(r.1@) == fd
        }),
{
    let mut writes: Vec<(String, String)> = Vec::new();
    let mut deletes: Vec<String> = Vec::new();
    if suppressed {
        return (writes, deletes);
    }
    let ghost m0 = state.as_map();
    proof {
        assert(reports@.skip(0) =~= reports@);
        let (m2, w2, d2) = burst_fold(state.as_map(), reports@.skip(0), root@, now);
        assert(pairs_view(writes@) + w2 =~= w2);
        assert(strs_view(deletes@) + d2 =~= d2);
    }
    let mut i: usize = 0;
    while i < reports.len()
        invariant
            i <= reports@.len(),
            state.wf(),
            burst_fold(m0, reports@, root@, now) == ({
                let (m2, w2, d2) = burst_fold(state.as_map(), reports@.skip(i as int), root@, now);
                (m2, pairs_view(writes@) + w2, strs_view(deletes@) + d2)
            }),
        decreases reports@.len() - i,
    {
        let ghost pre_m = state.as_map();
        let ghost rep = reports@[i as int];
        let ghost eff = report_effect(pre_m, rep, root@, now);
        let ghost w0 = pairs_view(writes@);
        let ghost d0 = strs_view(deletes@);
        proof {
            assert(reports@.skip(i as int)[0] == rep);
            assert(reports@.skip(i as int).skip(1) =~= reports@.skip(i + 1));
        }
        let report = &reports[i];
        let skip_it = contains_synclite(report.path.as_str());
        if !skip_it {
            match relative_to(root.as_str(), report.path.as_str()) {
                Some(rel) => {
                    let action = decide_action(
                        report.exists_now,
                        report.saw_create,
                        report.saw_remove,
                        report.saw_modify,
                    );
                    match action {
                        WatchAction::Write => {
                            match &report.content {
                                Some(content) => {
                                    let bytes = content.as_str().as_bytes();
                                    let mut owned: Vec<u8> = Vec::new();
                                    let mut b: usize = 0;
                                    while b < bytes.len()
                                        invariant
                                            b <= bytes@.len(),
                                            owned@ == bytes@.take(b as int),
                                        decreases bytes@.len() - b,
                                    {
                                        owned.push(bytes[b]);
                                        proof {
                                            assert(owned@ =~= bytes@.take(b + 1));
                                        }
                                        b = b + 1;
                                    }
                                    proof {
                                        assert(owned@ =~= bytes@);
                                    }
                                    let hash = calculate_file_hash(&owned);
                                    state.update_file(rel.clone(), hash, now);
                                    writes.push((rel, content.clone()));
                                    proof {
                                        assert(pairs_view(writes@) =~= w0.push(
                                            (rel_of(root@, rep.path@), rep.content->0@),
                                        ));
                                    }
                                },
                                None => {
                                },
                            }
                        },
                        WatchAction::Delete => {
                            state.delete_file(rel.clone(), now);
                            deletes.push(rel);
                            proof {
                                assert(strs_view(deletes@) =~= d0.push(rel_of(root@, rep.path@)));
                            }
                        },
                        WatchAction::Ignore => {
                        },
                    }
                },
                None => {
                },
            }
        }
        proof {
            let (em, ew, ed) = eff;
            assert(state.as_map() == em);
            let (m2, w2, d2) = burst_fold(state.as_map(), reports@.skip(i + 1), root@, now);
            assert(burst_fold(pre_m, reports@.skip(i as int), root@, now) == (
                m2,
                ew + w2,
                ed + d2,
            ));
            assert(pairs_view(writes@) + w2 =~= w0 + (ew + w2));
            assert(strs_view(deletes@) + d2 =~= d0 + (ed + d2));
        }
        i = i + 1;
    }
    proof {
        assert(reports@.skip(reports@.len() as int).len() == 0);
        let (m2, w2, d2) = burst_fold(state.as_map(), reports@.skip(reports@.len() as int), root@, now);
        assert(pairs_view(writes@) + w2 =~= pairs_view(writes@));
        assert(strs_view(deletes@) + d2 =~= strs_view(deletes@));
    }
    (writes, deletes)
}

} // verus!
