//! The patchsets component: threads of a mailing-list message dump.
//!
//! Messages come in as `lei` writes them. A message that names references
//! answers the last of them; one without references starts a thread. The
//! component lists the threads, latest activity first, and opens one as an
//! indented tree: replies are recorded latest first and the walk shows the
//! last recorded one first, so the earliest reply of each message is on top.

use vstd::prelude::*;

use crate::action::Action;
use crate::key::Key;
use crate::text::{text_less, text_lt};

verus! {

/// What the patchsets component shows.
#[derive(Debug, Clone, Copy, PartialEq, Eq, Structural)]
pub enum LocalMode {
    Idle,
    Listing,
    Thread,
}

/// One message of a `lei` dump.
#[derive(Debug, Clone)]
pub struct Message {
    /// The message id.
    pub m_id: String,
    /// The date, in ISO 8601, so that text order is time order.
    pub date_time: String,
    /// The ids this message refers to; the last one is the message it answers.
    pub refs: Option<Vec<String>>,
    /// The subject line.
    pub subject: String,
    /// The senders, as `lei` lists them.
    pub from: Vec<Vec<Option<String>>>,
}

/// A thread start, with the date of the latest message of its thread.
#[derive(Debug)]
pub struct Node {
    pub m_id: String,
    pub last_updated: String,
}

/// The replies recorded for one message id.
#[derive(Debug)]
pub struct Family {
    pub parent: String,
    pub kids: Vec<String>,
}

/// The id that a message answers, if it answers one.
pub open spec fn parent_id(m: Message) -> Option<Seq<char>> {
    match m.refs {
        Some(r) => Some(r@.last()@),
        None => None,
    }
}

/// A message whose reference list, if present, is not empty.
pub open spec fn refs_ok(m: Message) -> bool {
    m.refs matches Some(r) ==> r@.len() > 0
}

/// The position of the last message with id `id`.
pub open spec fn find_last(msgs: Seq<Message>, id: Seq<char>) -> Option<int>
    decreases msgs.len(),
{
    if msgs.len() == 0 {
        None
    } else if msgs.last().m_id@ == id {
        Some(msgs.len() - 1)
    } else {
        find_last(msgs.drop_last(), id)
    }
}

/// The date under which the message `id` is known (empty if unknown).
pub open spec fn date_of(msgs: Seq<Message>, id: Seq<char>) -> Seq<char> {
    match find_last(msgs, id) {
        Some(i) => msgs[i].date_time@,
        None => seq![],
    }
}

/// The ids of the messages that answer `p`, in order.
pub open spec fn child_ids(msgs: Seq<Message>, p: Seq<char>) -> Seq<Seq<char>>
    decreases msgs.len(),
{
    if msgs.len() == 0 {
        seq![]
    } else if parent_id(msgs.last()) == Some(p) {
        child_ids(msgs.drop_last(), p).push(msgs.last().m_id@)
    } else {
        child_ids(msgs.drop_last(), p)
    }
}

/// The ids of the messages that start a thread, in order.
pub open spec fn root_ids(msgs: Seq<Message>) -> Seq<Seq<char>>
    decreases msgs.len(),
{
    if msgs.len() == 0 {
        seq![]
    } else if msgs.last().refs is None {
        root_ids(msgs.drop_last()).push(msgs.last().m_id@)
    } else {
        root_ids(msgs.drop_last())
    }
}

pub open spec fn ids_view(s: Seq<String>) -> Seq<Seq<char>> {
    s.map_values(|k: String| k@)
}

/// The replies recorded for `p` (none if no family is recorded for it).
pub open spec fn kids_of(fams: Seq<Family>, p: Seq<char>) -> Seq<Seq<char>>
    decreases fams.len(),
{
    if fams.len() == 0 {
        seq![]
    } else if fams.last().parent@ == p {
        ids_view(fams.last().kids@)
    } else {
        kids_of(fams.drop_last(), p)
    }
}

/// No two families are recorded for the same id.
pub open spec fn parents_distinct(fams: Seq<Family>) -> bool {
    forall|i: int, j: int|
        0 <= i < j < fams.len() ==> fams[i].parent@ != fams[j].parent@
}

proof fn lemma_kids_of_at(fams: Seq<Family>, i: int)
    requires
        parents_distinct(fams),
        0 <= i < fams.len(),
    ensures
        kids_of(fams, fams[i].parent@) == ids_view(fams[i].kids@),
    decreases fams.len(),
{
    if i < fams.len() - 1 {
        assert(fams.drop_last()[i] == fams[i]);
        lemma_kids_of_at(fams.drop_last(), i);
    }
}

proof fn lemma_kids_of_absent(fams: Seq<Family>, p: Seq<char>)
    requires
        forall|i: int| 0 <= i < fams.len() ==> fams[i].parent@ != p,
    ensures
        kids_of(fams, p) == Seq::<Seq<char>>::empty(),
    decreases fams.len(),
{
    if fams.len() > 0 {
        lemma_kids_of_absent(fams.drop_last(), p);
    }
}

/// The position of the last message with id `id`.
fn find_last_message(msgs: &Vec<Message>, id: &String) -> (res: Option<usize>)
    ensures
        match res {
            Some(i) => i < msgs@.len() && find_last(msgs@, id@) == Some(i as int),
            None => find_last(msgs@, id@) is None,
        },
{
    let mut i = msgs.len();
    assert(msgs@.take(i as int) =~= msgs@);
    while i > 0
        invariant
            i <= msgs@.len(),
            find_last(msgs@, id@) == find_last(msgs@.take(i as int), id@),
        decreases i,
    {
        assert(msgs@.take(i as int).drop_last() =~= msgs@.take(i - 1));
        if msgs[i - 1].m_id == *id {
            return Some(i - 1);
        }
        i = i - 1;
    }
    None
}

/// The position of the family recorded for `p`.
fn family_index(fams: &Vec<Family>, p: &String) -> (res: Option<usize>)
    requires
        parents_distinct(fams@),
    ensures
        match res {
            Some(i) => i < fams@.len() && fams@[i as int].parent@ == p@ && kids_of(fams@, p@)
                == ids_view(fams@[i as int].kids@),
            None => (forall|i: int| 0 <= i < fams@.len() ==> fams@[i].parent@ != p@) && kids_of(
                fams@,
                p@,
            ) == Seq::<Seq<char>>::empty(),
        },
{
    let mut i: usize = 0;
    while i < fams.len()
        invariant
            i <= fams@.len(),
            parents_distinct(fams@),
            forall|j: int| 0 <= j < i ==> fams@[j].parent@ != p@,
        decreases fams.len() - i,
    {
        if fams[i].parent == *p {
            proof {
                lemma_kids_of_at(fams@, i as int);
            }
            return Some(i);
        }
        i = i + 1;
    }
    proof {
        lemma_kids_of_absent(fams@, p@);
    }
    None
}

/// The ids of a sequence of nodes.
pub open spec fn node_ids(s: Seq<Node>) -> Seq<Seq<char>> {
    s.map_values(|n: Node| n.m_id@)
}

/// Nodes in order of their dates, latest first.
pub open spec fn latest_first(s: Seq<Node>) -> bool {
    forall|i: int, j: int|
        0 <= i < j < s.len() ==> !text_lt(s[i].last_updated@, s[j].last_updated@)
}

/// Orders nodes by date, latest first, keeping every node.
pub fn sort_latest_first(items: Vec<Node>) -> (out: Vec<Node>)
    ensures
        out@.to_multiset() == items@.to_multiset(),
        node_ids(out@).to_multiset() == node_ids(items@).to_multiset(),
        latest_first(out@),
{
    broadcast use vstd::seq_lib::group_to_multiset_ensures;

    let ghost orig = items@;
    let mut items = items;
    let mut out: Vec<Node> = Vec::new();
    assert(orig.skip(orig.len() as int) =~= Seq::<Node>::empty());
    assert(node_ids(orig.skip(orig.len() as int)) =~= Seq::<Seq<char>>::empty());
    while items.len() > 0
        invariant
            items@ == orig.take(items@.len() as int),
            items@.len() <= orig.len(),
            out@.to_multiset() == orig.skip(items@.len() as int).to_multiset(),
            node_ids(out@).to_multiset() == node_ids(orig.skip(items@.len() as int)).to_multiset(),
            latest_first(out@),
        decreases items@.len(),
    {
        let ghost k = items@.len() as int;
        let x = items.pop().unwrap();
        assert(orig.skip(k - 1) =~= orig.skip(k).insert(0, x));
        assert(node_ids(orig.skip(k - 1)) =~= node_ids(orig.skip(k)).insert(0, x.m_id@));
        assert(items@ =~= orig.take(k - 1));
        let mut pos: usize = 0;
        while pos < out.len() && !text_less(out[pos].last_updated.as_str(), x.last_updated.as_str())
            invariant
                pos <= out@.len(),
                forall|m: int| 0 <= m < pos ==> !text_lt(out@[m].last_updated@, x.last_updated@),
            decreases out@.len() - pos,
        {
            pos = pos + 1;
        }
        let ghost old_out = out@;
        let ghost xd = x.last_updated@;
        out.insert(pos, x);
        proof {
            assert(out@ =~= old_out.insert(pos as int, x));
            assert(node_ids(out@) =~= node_ids(old_out).insert(pos as int, x.m_id@));
            vstd::seq_lib::to_multiset_insert(old_out, pos as int, x);
            vstd::seq_lib::to_multiset_insert(node_ids(old_out), pos as int, x.m_id@);
            vstd::seq_lib::to_multiset_insert(orig.skip(k), 0, x);
            vstd::seq_lib::to_multiset_insert(node_ids(orig.skip(k)), 0, x.m_id@);
            assert forall|i: int, j: int| 0 <= i < j < out@.len() implies !text_lt(
                out@[i].last_updated@,
                out@[j].last_updated@,
            ) by {
                if i < pos && j == pos {
                } else if i == pos && j > pos {
                    let a = old_out[pos as int].last_updated@;
                    let b = old_out[j - 1].last_updated@;
                    crate::text::lemma_text_total(b, a);
                    if text_lt(xd, b) {
                        if text_lt(b, a) {
                            crate::text::lemma_text_transitive(xd, b, a);
                            crate::text::lemma_text_transitive(xd, a, xd);
                        } else {
                            crate::text::lemma_text_transitive(xd, a, xd);
                        }
                        crate::text::lemma_text_irreflexive(xd);
                    }
                } else if i < pos && j > pos {
                    assert(out@[i] == old_out[i]);
                    assert(out@[j] == old_out[j - 1]);
                } else if i > pos {
                    assert(out@[i] == old_out[i - 1]);
                    assert(out@[j] == old_out[j - 1]);
                } else {
                    assert(out@[i] == old_out[i]);
                    assert(out@[j] == old_out[j]);
                }
            }
        }
    }
    assert(orig.skip(0) =~= orig);
    out
}

/// The view of the entries of a thread walk: depth and id.
pub open spec fn entries_view(s: Seq<(usize, String)>) -> Seq<(nat, Seq<char>)> {
    s.map_values(|e: (usize, String)| (e.0 as nat, e.1@))
}

/// The walk of the thread below `id`, depth first: the message itself, then
/// the subthread of each reply, the last recorded reply first. Replies are
/// followed `fuel` levels deep.
pub open spec fn unfold(fams: Seq<Family>, id: Seq<char>, depth: nat, fuel: nat) -> Seq<
    (nat, Seq<char>),
>
    decreases fuel, 0nat,
{
    if fuel == 0 {
        seq![]
    } else {
        seq![(depth, id)] + unfold_kids(fams, kids_of(fams, id), depth + 1, (fuel - 1) as nat)
    }
}

/// The walks of the subthreads of `kids`, the last one first.
pub open spec fn unfold_kids(fams: Seq<Family>, kids: Seq<Seq<char>>, depth: nat, fuel: nat) -> Seq<
    (nat, Seq<char>),
>
    decreases fuel, kids.len(),
{
    if kids.len() == 0 {
        seq![]
    } else {
        unfold(fams, kids.last(), depth, fuel) + unfold_kids(fams, kids.drop_last(), depth, fuel)
    }
}

/// Appends to `out` the walk of the thread below `id`.
fn collect_thread(
    fams: &Vec<Family>,
    id: &String,
    depth: usize,
    fuel: usize,
    out: &mut Vec<(usize, String)>,
)
    requires
        parents_distinct(fams@),
        depth + fuel <= usize::MAX,
    ensures
        entries_view(final(out)@) == entries_view(old(out)@) + unfold(
            fams@,
            id@,
            depth as nat,
            fuel as nat,
        ),
    decreases fuel,
{
    if fuel == 0 {
        assert(entries_view(out@) =~= entries_view(out@) + Seq::<(nat, Seq<char>)>::empty());
        return ;
    }
    let ghost start = entries_view(out@);
    out.push((depth, id.clone()));
    let ghost base = start + seq![(depth as nat, id@)];
    assert(entries_view(out@) =~= base);
    match family_index(fams, id) {
        Some(i) => {
            let kids = &fams[i].kids;
            let ghost all = ids_view(kids@);
            let mut j = kids.len();
            assert(all.take(j as int) =~= all);
            while j > 0
                invariant
                    parents_distinct(fams@),
                    depth + fuel <= usize::MAX,
                    fuel > 0,
                    j <= kids@.len(),
                    all == ids_view(kids@),
                    base + unfold_kids(fams@, all, (depth + 1) as nat, (fuel - 1) as nat)
                        == entries_view(out@) + unfold_kids(
                        fams@,
                        all.take(j as int),
                        (depth + 1) as nat,
                        (fuel - 1) as nat,
                    ),
                decreases j,
            {
                let ghost before = entries_view(out@);
                collect_thread(fams, &kids[j - 1], depth + 1, fuel - 1, out);
                proof {
                    let t = all.take(j as int);
                    assert(t.last() == kids@[j - 1]@);
                    assert(t.drop_last() =~= all.take(j - 1));
                    let u = unfold(fams@, kids@[j - 1]@, (depth + 1) as nat, (fuel - 1) as nat);
                    let r = unfold_kids(fams@, all.take(j - 1), (depth + 1) as nat, (fuel - 1) as nat);
                    assert(unfold_kids(fams@, t, (depth + 1) as nat, (fuel - 1) as nat) == u + r);
                    assert(before + (u + r) =~= (before + u) + r);
                }
                j = j - 1;
            }
            assert(all.take(0) =~= Seq::<Seq<char>>::empty());
            assert(entries_view(out@) + Seq::<(nat, Seq<char>)>::empty() =~= entries_view(out@));
            assert(start + unfold(fams@, id@, depth as nat, fuel as nat) =~= base + unfold_kids(
                fams@,
                all,
                (depth + 1) as nat,
                (fuel - 1) as nat,
            ));
        },
        None => {
            assert(start + unfold(fams@, id@, depth as nat, fuel as nat) =~= base);
        },
    }
}

/// `depth` levels of indentation, two spaces each.
pub open spec fn indent(depth: nat) -> Seq<char> {
    Seq::new(2 * depth, |_i: int| ' ')
}

/// The line that shows a message of a thread at `depth`: the thread start
/// as its bare subject, a reply indented and marked with an arrow.
pub open spec fn thread_line(depth: nat, subject: Seq<char>) -> Seq<char> {
    if depth == 0 {
        subject
    } else {
        indent(depth) + seq!['\u{21B3}', ' '] + subject
    }
}

/// The lines of a thread walk; an id with no known message gives no line.
pub open spec fn thread_lines(msgs: Seq<Message>, entries: Seq<(nat, Seq<char>)>) -> Seq<Seq<char>>
    decreases entries.len(),
{
    if entries.len() == 0 {
        seq![]
    } else {
        let rest = thread_lines(msgs, entries.drop_last());
        match find_last(msgs, entries.last().1) {
            Some(i) => rest.push(thread_line(entries.last().0, msgs[i].subject@)),
            None => rest,
        }
    }
}

/// The latest date among the known messages of a walk, by text order
/// (empty if none): a date replaces the running one only when it is later.
pub open spec fn latest(msgs: Seq<Message>, entries: Seq<(nat, Seq<char>)>) -> Seq<char>
    decreases entries.len(),
{
    if entries.len() == 0 {
        seq![]
    } else {
        let acc = latest(msgs, entries.drop_last());
        match find_last(msgs, entries.last().1) {
            Some(i) => if text_lt(acc, msgs[i].date_time@) {
                msgs[i].date_time@
            } else {
                acc
            },
            None => acc,
        }
    }
}

/// The line for a message of a thread at `depth`.
fn make_line(depth: usize, subject: &String) -> (line: String)
    ensures
        line@ == thread_line(depth as nat, subject@),
{
    if depth == 0 {
        return subject.clone();
    }
    let mut line = String::new();
    let mut k: usize = 0;
    proof {
        reveal_strlit("  ");
        reveal_strlit("\u{21B3} ");
    }
    assert(line@ =~= indent(0));
    while k < depth
        invariant
            k <= depth,
            line@ == indent(k as nat),
            "  "@ == seq![' ', ' '],
        decreases depth - k,
    {
        line.append("  ");
        assert(line@ =~= indent((k + 1) as nat));
        k = k + 1;
    }
    line.append("\u{21B3} ");
    line.append(subject.as_str());
    assert(line@ =~= thread_line(depth as nat, subject@));
    line
}

/// Appends the lines of a thread walk to `out`.
fn push_thread_lines(msgs: &Vec<Message>, entries: &Vec<(usize, String)>, out: &mut Vec<String>)
    ensures
        ids_view(final(out)@) == ids_view(old(out)@) + thread_lines(msgs@, entries_view(entries@)),
{
    let ghost start = ids_view(out@);
    let ghost ev = entries_view(entries@);
    let mut k: usize = 0;
    assert(ev.take(0) =~= Seq::<(nat, Seq<char>)>::empty());
    assert(start + Seq::<Seq<char>>::empty() =~= start);
    while k < entries.len()
        invariant
            k <= entries@.len(),
            ev == entries_view(entries@),
            ids_view(out@) == start + thread_lines(msgs@, ev.take(k as int)),
        decreases entries.len() - k,
    {
        assert(ev.take(k + 1).drop_last() =~= ev.take(k as int));
        assert(ev.take(k + 1).last() == (entries@[k as int].0 as nat, entries@[k as int].1@));
        match find_last_message(msgs, &entries[k].1) {
            Some(i) => {
                let line = make_line(entries[k].0, &msgs[i].subject);
                let ghost before = ids_view(out@);
                out.push(line);
                assert(ids_view(out@) =~= before.push(line@));
                assert(start + thread_lines(msgs@, ev.take(k as int)).push(line@) =~= (start
                    + thread_lines(msgs@, ev.take(k as int))).push(line@));
            },
            None => {},
        }
        k = k + 1;
    }
    assert(ev.take(entries@.len() as int) =~= ev);
}

/// The latest date among the known messages of a thread walk.
fn latest_date(msgs: &Vec<Message>, entries: &Vec<(usize, String)>) -> (res: String)
    ensures
        res@ == latest(msgs@, entries_view(entries@)),
{
    let ghost ev = entries_view(entries@);
    let mut acc = String::new();
    let mut k: usize = 0;
    assert(ev.take(0) =~= Seq::<(nat, Seq<char>)>::empty());
    while k < entries.len()
        invariant
            k <= entries@.len(),
            ev == entries_view(entries@),
            acc@ == latest(msgs@, ev.take(k as int)),
        decreases entries.len() - k,
    {
        assert(ev.take(k + 1).drop_last() =~= ev.take(k as int));
        assert(ev.take(k + 1).last() == (entries@[k as int].0 as nat, entries@[k as int].1@));
        match find_last_message(msgs, &entries[k].1) {
            Some(i) => {
                if text_less(acc.as_str(), msgs[i].date_time.as_str()) {
                    acc = msgs[i].date_time.clone();
                }
            },
            None => {},
        }
        k = k + 1;
    }
    assert(ev.take(entries@.len() as int) =~= ev);
    acc
}

/// The message found for an id carries that id.
pub proof fn lemma_find_last_sound(msgs: Seq<Message>, id: Seq<char>)
    ensures
        find_last(msgs, id) matches Some(i) ==> 0 <= i < msgs.len() && msgs[i].m_id@ == id,
    decreases msgs.len(),
{
    if msgs.len() > 0 {
        lemma_find_last_sound(msgs.drop_last(), id);
    }
}

proof fn lemma_find_last_some(msgs: Seq<Message>, k: int)
    requires
        0 <= k < msgs.len(),
    ensures
        find_last(msgs, msgs[k].m_id@) is Some,
    decreases msgs.len(),
{
    if k < msgs.len() - 1 && msgs.last().m_id@ != msgs[k].m_id@ {
        assert(msgs.drop_last()[k] == msgs[k]);
        lemma_find_last_some(msgs.drop_last(), k);
    }
}

proof fn lemma_find_last_grow(a: Seq<Message>, b: Seq<Message>, id: Seq<char>)
    requires
        find_last(a, id) is Some,
    ensures
        find_last(a + b, id) is Some,
{
    lemma_find_last_sound(a, id);
    let i = find_last(a, id)->0;
    assert((a + b)[i] == a[i]);
    lemma_find_last_some(a + b, i);
}

/// Records `kid` as a reply to `p`.
fn add_kid(fams: &mut Vec<Family>, p: &String, kid: String)
    requires
        parents_distinct(old(fams)@),
    ensures
        parents_distinct(final(fams)@),
        forall|q: Seq<char>|
            #![trigger kids_of(final(fams)@, q)]
            kids_of(final(fams)@, q) == if q == p@ {
                kids_of(old(fams)@, q).push(kid@)
            } else {
                kids_of(old(fams)@, q)
            },
{
    let ghost f0 = fams@;
    match family_index(fams, p) {
        Some(i) => {
            let ghost kv = kid@;
            fams[i].kids.push(kid);
            proof {
                assert(fams@ =~= f0.update(i as int, fams@[i as int]));
                assert(fams@[i as int].parent == f0[i as int].parent);
                assert(parents_distinct(fams@));
                assert(ids_view(fams@[i as int].kids@) =~= ids_view(f0[i as int].kids@).push(kv));
                assert forall|q: Seq<char>|
                    #![trigger kids_of(fams@, q)]
                    kids_of(fams@, q) == if q == p@ {
                        kids_of(f0, q).push(kv)
                    } else {
                        kids_of(f0, q)
                    } by {
                    if q == p@ {
                        lemma_kids_of_at(fams@, i as int);
                    } else if exists|j: int| 0 <= j < f0.len() && f0[j].parent@ == q {
                        let j = choose|j: int| 0 <= j < f0.len() && f0[j].parent@ == q;
                        lemma_kids_of_at(f0, j);
                        lemma_kids_of_at(fams@, j);
                    } else {
                        lemma_kids_of_absent(f0, q);
                        lemma_kids_of_absent(fams@, q);
                    }
                }
            }
        },
        None => {
            let ghost kv = kid@;
            let mut kids = Vec::new();
            kids.push(kid);
            fams.push(Family { parent: p.clone(), kids });
            proof {
                let n = f0.len() as int;
                assert(fams@.drop_last() =~= f0);
                assert forall|q: Seq<char>|
                    #![trigger kids_of(fams@, q)]
                    kids_of(fams@, q) == if q == p@ {
                        kids_of(f0, q).push(kv)
                    } else {
                        kids_of(f0, q)
                    } by {
                    if q == p@ {
                        assert(ids_view(fams@[n].kids@) =~= seq![kv]);
                        assert(kids_of(f0, q) =~= Seq::<Seq<char>>::empty());
                        assert(seq![kv] =~= Seq::<Seq<char>>::empty().push(kv));
                    }
                }
            }
        },
    }
}

/// Replies in order of their dates, latest first.
pub open spec fn replies_latest_first(msgs: Seq<Message>, kids: Seq<Seq<char>>) -> bool {
    forall|i: int, j: int|
        0 <= i < j < kids.len() ==> !text_lt(date_of(msgs, kids[i]), date_of(msgs, kids[j]))
}

/// The walk of the thread below `id`, followed as deep as there are messages.
pub open spec fn thread_walk(msgs: Seq<Message>, fams: Seq<Family>, id: Seq<char>) -> Seq<
    (nat, Seq<char>),
> {
    unfold(fams, id, 0, msgs.len())
}

/// The latest date in the thread below `id`.
pub open spec fn last_activity(msgs: Seq<Message>, fams: Seq<Family>, id: Seq<char>) -> Seq<char> {
    latest(msgs, thread_walk(msgs, fams, id))
}

/// The lines of the thread below `id`.
pub open spec fn thread_of(msgs: Seq<Message>, fams: Seq<Family>, id: Seq<char>) -> Seq<Seq<char>> {
    thread_lines(msgs, thread_walk(msgs, fams, id))
}

/// The date under which the message `id` is known.
fn date_of_id(msgs: &Vec<Message>, id: &String) -> (res: String)
    ensures
        res@ == date_of(msgs@, id@),
{
    match find_last_message(msgs, id) {
        Some(i) => msgs[i].date_time.clone(),
        None => String::new(),
    }
}

/// Records the replies and thread starts among `msgs`.
fn gather(msgs: &Vec<Message>, fams: &mut Vec<Family>, roots: &mut Vec<Node>)
    requires
        parents_distinct(old(fams)@),
        kids_known(msgs@, old(fams)@),
        forall|k: int| 0 <= k < msgs@.len() ==> refs_ok(#[trigger] msgs@[k]),
    ensures
        parents_distinct(final(fams)@),
        kids_known(msgs@, final(fams)@),
        forall|q: Seq<char>|
            #![trigger kids_of(final(fams)@, q)]
            kids_of(final(fams)@, q) == kids_of(old(fams)@, q) + child_ids(msgs@, q),
        node_ids(final(roots)@) == node_ids(old(roots)@) + root_ids(msgs@),
{
    let ghost f0 = fams@;
    let ghost r0 = node_ids(roots@);
    let mut k: usize = 0;
    assert(msgs@.take(0) =~= Seq::<Message>::empty());
    assert forall|q: Seq<char>| #![trigger kids_of(fams@, q)]
        kids_of(fams@, q) == kids_of(f0, q) + child_ids(msgs@.take(0), q) by {
        assert(kids_of(f0, q) + Seq::<Seq<char>>::empty() =~= kids_of(f0, q));
    }
    assert(node_ids(roots@) =~= r0 + root_ids(msgs@.take(0)));
    while k < msgs.len()
        invariant
            k <= msgs@.len(),
            parents_distinct(fams@),
            kids_known(msgs@, fams@),
            forall|j: int| 0 <= j < msgs@.len() ==> refs_ok(#[trigger] msgs@[j]),
            forall|q: Seq<char>|
                #![trigger kids_of(fams@, q)]
                kids_of(fams@, q) == kids_of(f0, q) + child_ids(msgs@.take(k as int), q),
            node_ids(roots@) == r0 + root_ids(msgs@.take(k as int)),
        decreases msgs@.len() - k,
    {
        let ghost t = msgs@.take(k + 1);
        assert(t.drop_last() =~= msgs@.take(k as int));
        assert(t.last() == msgs@[k as int]);
        let ghost fb = fams@;
        match &msgs[k].refs {
            Some(refs) => {
                assert(refs_ok(msgs@[k as int]));
                let p = &refs[refs.len() - 1];
                add_kid(fams, p, msgs[k].m_id.clone());
                proof {
                    lemma_find_last_some(msgs@, k as int);
                    assert forall|q: Seq<char>, x: Seq<char>|
                        #![trigger kids_of(fams@, q).contains(x)]
                        kids_of(fams@, q).contains(x) implies find_last(msgs@, x) is Some by {
                        if q == p@ && !kids_of(fb, q).contains(x) {
                            let i = choose|i: int|
                                0 <= i < kids_of(fams@, q).len() && kids_of(fams@, q)[i] == x;
                            assert(i == kids_of(fb, q).len());
                        }
                    }
                }
                assert(node_ids(roots@) =~= r0 + root_ids(t));
                assert forall|q: Seq<char>| #![trigger kids_of(fams@, q)]
                    kids_of(fams@, q) == kids_of(f0, q) + child_ids(t, q) by {
                    assert(kids_of(fams@, q) == kids_of(fb, q) || q == p@);
                    if q == p@ {
                        assert(parent_id(msgs@[k as int]) == Some(q));
                        assert((kids_of(f0, q) + child_ids(msgs@.take(k as int), q)).push(
                            msgs@[k as int].m_id@,
                        ) =~= kids_of(f0, q) + child_ids(msgs@.take(k as int), q).push(
                            msgs@[k as int].m_id@,
                        ));
                    }
                }
            },
            None => {
                let ghost before = roots@;
                roots.push(Node { m_id: msgs[k].m_id.clone(), last_updated: String::new() });
                assert(node_ids(roots@) =~= node_ids(before).push(msgs@[k as int].m_id@));
                assert(node_ids(roots@) =~= r0 + root_ids(t));
                assert forall|q: Seq<char>| #![trigger kids_of(fams@, q)]
                    kids_of(fams@, q) == kids_of(f0, q) + child_ids(t, q) by {}
            },
        }
        k = k + 1;
    }
    assert(msgs@.take(msgs@.len() as int) =~= msgs@);
}

/// The replies `kids`, latest first.
fn sort_kids(msgs: &Vec<Message>, kids: &Vec<String>) -> (res: Vec<String>)
    ensures
        ids_view(res@).to_multiset() == ids_view(kids@).to_multiset(),
        replies_latest_first(msgs@, ids_view(res@)),
{
    broadcast use vstd::seq_lib::group_to_multiset_ensures;

    let mut nodes: Vec<Node> = Vec::new();
    let mut j: usize = 0;
    while j < kids.len()
        invariant
            j <= kids@.len(),
            node_ids(nodes@) == ids_view(kids@.take(j as int)),
            forall|n: int|
                0 <= n < nodes@.len() ==> (#[trigger] nodes@[n]).last_updated@ == date_of(
                    msgs@,
                    nodes@[n].m_id@,
                ),
        decreases kids@.len() - j,
    {
        let date = date_of_id(msgs, &kids[j]);
        let ghost before = nodes@;
        nodes.push(Node { m_id: kids[j].clone(), last_updated: date });
        assert(node_ids(nodes@) =~= node_ids(before).push(kids@[j as int]@));
        assert(ids_view(kids@.take(j + 1)) =~= ids_view(kids@.take(j as int)).push(kids@[j as int]@));
        j = j + 1;
    }
    assert(kids@.take(kids@.len() as int) =~= kids@);
    let sorted = sort_latest_first(nodes);
    assert forall|n: int| 0 <= n < sorted@.len() implies (#[trigger] sorted@[n]).last_updated@
        == date_of(msgs@, sorted@[n].m_id@) by {
        assert(sorted@.to_multiset().count(sorted@[n]) > 0);
        assert(nodes@.contains(sorted@[n]));
    }
    let mut res: Vec<String> = Vec::new();
    let mut i: usize = 0;
    while i < sorted.len()
        invariant
            i <= sorted@.len(),
            ids_view(res@) == node_ids(sorted@.take(i as int)),
        decreases sorted@.len() - i,
    {
        let ghost before = res@;
        res.push(sorted[i].m_id.clone());
        assert(ids_view(res@) =~= ids_view(before).push(sorted@[i as int].m_id@));
        assert(node_ids(sorted@.take(i + 1)) =~= node_ids(sorted@.take(i as int)).push(
            sorted@[i as int].m_id@,
        ));
        i = i + 1;
    }
    assert(sorted@.take(sorted@.len() as int) =~= sorted@);
    res
}

/// The families `fams` with each list of replies ordered latest first.
fn sort_families(msgs: &Vec<Message>, fams: &Vec<Family>) -> (out: Vec<Family>)
    requires
        parents_distinct(fams@),
    ensures
        parents_distinct(out@),
        forall|q: Seq<char>|
            #![trigger kids_of(out@, q)]
            kids_of(out@, q).to_multiset() == kids_of(fams@, q).to_multiset()
                && replies_latest_first(msgs@, kids_of(out@, q)),
{
    let mut out: Vec<Family> = Vec::new();
    let mut i: usize = 0;
    while i < fams.len()
        invariant
            i <= fams@.len(),
            out@.len() == i,
            parents_distinct(fams@),
            forall|j: int| 0 <= j < i ==> (#[trigger] out@[j]).parent@ == fams@[j].parent@,
            forall|j: int|
                0 <= j < i ==> ids_view((#[trigger] out@[j]).kids@).to_multiset() == ids_view(
                    fams@[j].kids@,
                ).to_multiset() && replies_latest_first(msgs@, ids_view(out@[j].kids@)),
        decreases fams@.len() - i,
    {
        let kids = sort_kids(msgs, &fams[i].kids);
        out.push(Family { parent: fams[i].parent.clone(), kids });
        i = i + 1;
    }
    assert(parents_distinct(out@));
    assert forall|q: Seq<char>|
        #![trigger kids_of(out@, q)]
        kids_of(out@, q).to_multiset() == kids_of(fams@, q).to_multiset()
            && replies_latest_first(msgs@, kids_of(out@, q)) by {
        if exists|j: int| 0 <= j < fams@.len() && fams@[j].parent@ == q {
            let j = choose|j: int| 0 <= j < fams@.len() && fams@[j].parent@ == q;
            lemma_kids_of_at(fams@, j);
            lemma_kids_of_at(out@, j);
        } else {
            lemma_kids_of_absent(fams@, q);
            lemma_kids_of_absent(out@, q);
        }
    }
    out
}

/// The thread starts `roots`, each with the latest date of its thread.
fn refresh_roots(msgs: &Vec<Message>, fams: &Vec<Family>, roots: &Vec<Node>) -> (out: Vec<Node>)
    requires
        parents_distinct(fams@),
    ensures
        node_ids(out@) == node_ids(roots@),
        forall|i: int|
            0 <= i < out@.len() ==> (#[trigger] out@[i]).last_updated@ == last_activity(
                msgs@,
                fams@,
                out@[i].m_id@,
            ),
{
    let mut out: Vec<Node> = Vec::new();
    let mut i: usize = 0;
    while i < roots.len()
        invariant
            i <= roots@.len(),
            parents_distinct(fams@),
            node_ids(out@) == node_ids(roots@.take(i as int)),
            forall|j: int|
                0 <= j < out@.len() ==> (#[trigger] out@[j]).last_updated@ == last_activity(
                    msgs@,
                    fams@,
                    out@[j].m_id@,
                ),
        decreases roots@.len() - i,
    {
        let mut entries: Vec<(usize, String)> = Vec::new();
        collect_thread(fams, &roots[i].m_id, 0, msgs.len(), &mut entries);
        assert(entries_view(entries@) =~= thread_walk(msgs@, fams@, roots@[i as int].m_id@));
        let date = latest_date(msgs, &entries);
        let ghost before = out@;
        out.push(Node { m_id: roots[i].m_id.clone(), last_updated: date });
        assert(node_ids(out@) =~= node_ids(before).push(roots@[i as int].m_id@));
        assert(node_ids(roots@.take(i + 1)) =~= node_ids(roots@.take(i as int)).push(
            roots@[i as int].m_id@,
        ));
        i = i + 1;
    }
    assert(roots@.take(roots@.len() as int) =~= roots@);
    out
}

proof fn lemma_root_ids_known(msgs: Seq<Message>)
    ensures
        forall|i: int|
            0 <= i < root_ids(msgs).len() ==> (#[trigger] find_last(msgs, root_ids(msgs)[i])) is Some,
    decreases msgs.len(),
{
    if msgs.len() > 0 {
        let d = msgs.drop_last();
        lemma_root_ids_known(d);
        assert(msgs =~= d + seq![msgs.last()]);
        assert forall|i: int| 0 <= i < root_ids(msgs).len() implies (#[trigger] find_last(
            msgs,
            root_ids(msgs)[i],
        )) is Some by {
            if i < root_ids(d).len() {
                assert(root_ids(msgs)[i] == root_ids(d)[i]);
                lemma_find_last_grow(d, seq![msgs.last()], root_ids(d)[i]);
            } else {
                lemma_find_last_some(msgs, msgs.len() - 1);
            }
        }
    }
}

/// The length of the list on screen in `mode`.
pub open spec fn visible_len(mode: LocalMode, listed: nat, lines: nat) -> nat {
    match mode {
        LocalMode::Listing => listed,
        LocalMode::Thread => lines,
        LocalMode::Idle => 0,
    }
}

/// The selection after a step down: one further while that stays in the
/// list on screen.
pub open spec fn index_after_down(mode: LocalMode, index: nat, listed: nat, lines: nat) -> nat {
    match mode {
        LocalMode::Listing => if index + 1 < listed {
            index + 1
        } else {
            index
        },
        LocalMode::Thread => if index + 1 < lines {
            index + 1
        } else {
            index
        },
        LocalMode::Idle => index,
    }
}

/// The selection after a step up: one back, stopping at the top.
pub open spec fn index_after_up(index: nat) -> nat {
    if index > 0 {
        (index - 1) as nat
    } else {
        0
    }
}

/// Law: a selection inside the list on screen stays inside it when it moves
/// down or up, and moving never jumps by more than one.
pub proof fn lemma_selection_stays_visible(mode: LocalMode, index: nat, listed: nat, lines: nat)
    requires
        index < visible_len(mode, listed, lines),
    ensures
        index_after_down(mode, index, listed, lines) < visible_len(mode, listed, lines),
        index_after_up(index) < visible_len(mode, listed, lines),
        index_after_down(mode, index, listed, lines) <= index + 1,
        index_after_up(index) + 1 >= index,
{
}

/// Law: a step down never lowers the selection: it moves one further exactly
/// when that stays in the list on screen, and otherwise stays where it is.
pub proof fn lemma_step_down_moves_forward(mode: LocalMode, index: nat, listed: nat, lines: nat)
    ensures
        index_after_down(mode, index, listed, lines) >= index,
        index_after_down(mode, index, listed, lines) == index + 1 <==> index + 1 < visible_len(
            mode,
            listed,
            lines,
        ),
        index + 1 >= visible_len(mode, listed, lines) ==> index_after_down(mode, index, listed, lines)
            == index,
{
}

/// Law: a message whose reference list is present and not empty is recorded
/// as a reply to the last id of that list, and only such messages are
/// recorded as replies to an id.
pub proof fn lemma_replies_follow_last_ref(msgs: Seq<Message>, p: Seq<char>)
    ensures
        forall|k: int|
            0 <= k < msgs.len() && (#[trigger] msgs[k]).refs is Some && (msgs[k].refs->0)@.len() > 0
                && (msgs[k].refs->0)@[(msgs[k].refs->0)@.len() - 1]@ == p ==> child_ids(
                msgs,
                p,
            ).contains(msgs[k].m_id@),
        forall|x: Seq<char>|
            child_ids(msgs, p).contains(x) ==> exists|k: int|
                0 <= k < msgs.len() && (#[trigger] msgs[k]).m_id@ == x && msgs[k].refs is Some
                    && (msgs[k].refs->0)@[(msgs[k].refs->0)@.len() - 1]@ == p,
    decreases msgs.len(),
{
    if msgs.len() > 0 {
        let d = msgs.drop_last();
        lemma_replies_follow_last_ref(d, p);
        let n = msgs.len() - 1;
        assert forall|k: int|
            0 <= k < msgs.len() && (#[trigger] msgs[k]).refs is Some && (msgs[k].refs->0)@.len() > 0
                && (msgs[k].refs->0)@[(msgs[k].refs->0)@.len() - 1]@ == p implies child_ids(
            msgs,
            p,
        ).contains(msgs[k].m_id@) by {
            if k < n {
                assert(d[k] == msgs[k]);
                if parent_id(msgs.last()) == Some(p) {
                    let c = child_ids(d, p);
                    let j = choose|j: int| 0 <= j < c.len() && c[j] == msgs[k].m_id@;
                    assert(c.push(msgs.last().m_id@)[j] == msgs[k].m_id@);
                }
            } else {
                assert(child_ids(d, p).push(msgs.last().m_id@).last() == msgs[k].m_id@);
            }
        }
        assert forall|x: Seq<char>| child_ids(msgs, p).contains(x) implies exists|k: int|
            0 <= k < msgs.len() && (#[trigger] msgs[k]).m_id@ == x && msgs[k].refs is Some
                && (msgs[k].refs->0)@[(msgs[k].refs->0)@.len() - 1]@ == p by {
            let c = child_ids(d, p);
            if parent_id(msgs.last()) == Some(p) && x == msgs.last().m_id@ {
                assert(msgs[n] == msgs.last());
            } else {
                let cm = child_ids(msgs, p);
                let j = choose|j: int| 0 <= j < cm.len() && cm[j] == x;
                if parent_id(msgs.last()) == Some(p) {
                    assert(j < c.len());
                    assert(c[j] == x);
                }
                assert(c.contains(x));
                let k = choose|k: int|
                    0 <= k < d.len() && (#[trigger] d[k]).m_id@ == x && d[k].refs is Some
                        && (d[k].refs->0)@[(d[k].refs->0)@.len() - 1]@ == p;
                assert(msgs[k] == d[k]);
            }
        }
    }
}

/// The line that shows a message at `depth` >= 1: exactly two spaces per
/// level, then the arrow and a space, then the subject.
pub proof fn lemma_reply_line_layout(depth: nat, subject: Seq<char>)
    requires
        depth >= 1,
    ensures
        thread_line(depth, subject).len() == 2 * depth + 2 + subject.len(),
        forall|i: int| 0 <= i < 2 * depth ==> #[trigger] thread_line(depth, subject)[i] == ' ',
        thread_line(depth, subject)[(2 * depth) as int] == '\u{21B3}',
        thread_line(depth, subject)[(2 * depth + 1) as int] == ' ',
        thread_line(depth, subject).subrange((2 * depth + 2) as int, (2 * depth + 2 + subject.len()) as int)
            == subject,
{
    let l = thread_line(depth, subject);
    assert(l.subrange((2 * depth + 2) as int, (2 * depth + 2 + subject.len()) as int) =~= subject);
}

/// The walks of the subthreads of `kids`, in the order of `kids`.
pub open spec fn walk_in_order(fams: Seq<Family>, kids: Seq<Seq<char>>, depth: nat, fuel: nat) -> Seq<
    (nat, Seq<char>),
>
    decreases kids.len(),
{
    if kids.len() == 0 {
        seq![]
    } else {
        unfold(fams, kids.first(), depth, fuel) + walk_in_order(fams, kids.drop_first(), depth, fuel)
    }
}

proof fn lemma_kids_walked_last_first(fams: Seq<Family>, kids: Seq<Seq<char>>, depth: nat, fuel: nat)
    ensures
        unfold_kids(fams, kids, depth, fuel) == walk_in_order(fams, kids.reverse(), depth, fuel),
    decreases kids.len(),
{
    if kids.len() > 0 {
        lemma_kids_walked_last_first(fams, kids.drop_last(), depth, fuel);
        let r = kids.reverse();
        assert(r.first() == kids.last());
        assert(r.drop_first() =~= kids.drop_last().reverse());
    } else {
        assert(kids.reverse() =~= Seq::<Seq<char>>::empty());
    }
}

/// Law: at every depth, the walk shows a message, then the subthreads of its
/// recorded replies from the last recorded one to the first. Replies are
/// recorded latest first, so at every depth the oldest reply comes first.
pub proof fn lemma_walk_last_reply_first(fams: Seq<Family>, id: Seq<char>, depth: nat, fuel: nat)
    requires
        fuel > 0,
    ensures
        unfold(fams, id, depth, fuel) == seq![(depth, id)] + walk_in_order(
            fams,
            kids_of(fams, id).reverse(),
            depth + 1,
            (fuel - 1) as nat,
        ),
{
    lemma_kids_walked_last_first(fams, kids_of(fams, id), depth + 1, (fuel - 1) as nat);
}

/// A chain of replies: each id after the first is a recorded reply to the
/// one before it.
pub open spec fn is_reply_chain(fams: Seq<Family>, path: Seq<Seq<char>>) -> bool
    decreases path.len(),
{
    path.len() <= 1 || (kids_of(fams, path[0]).contains(path[1]) && is_reply_chain(
        fams,
        path.drop_first(),
    ))
}

/// No chain of replies from `id` comes back to an id it has passed.
pub open spec fn no_reply_cycle_below(fams: Seq<Family>, id: Seq<char>) -> bool {
    forall|path: Seq<Seq<char>>|
        #![trigger is_reply_chain(fams, path)]
        path.len() > 0 && path[0] == id && is_reply_chain(fams, path) ==> path.no_duplicates()
}

/// Every recorded reply is the id of a loaded message.
pub open spec fn kids_known(msgs: Seq<Message>, fams: Seq<Family>) -> bool {
    forall|p: Seq<char>, k: Seq<char>|
        #![trigger kids_of(fams, p).contains(k)]
        kids_of(fams, p).contains(k) ==> find_last(msgs, k) is Some
}

/// Every chain of replies from `id` has at most `m` ids.
pub open spec fn chains_within(fams: Seq<Family>, id: Seq<char>, m: nat) -> bool {
    forall|path: Seq<Seq<char>>|
        #![trigger is_reply_chain(fams, path)]
        path.len() > 0 && path[0] == id && is_reply_chain(fams, path) ==> path.len() <= m
}

proof fn lemma_chain_from_kid(fams: Seq<Family>, id: Seq<char>, k: Seq<char>, m: nat)
    requires
        chains_within(fams, id, m),
        kids_of(fams, id).contains(k),
    ensures
        m >= 1,
        chains_within(fams, k, (m - 1) as nat),
{
    assert(is_reply_chain(fams, seq![id]));
    assert forall|path: Seq<Seq<char>>|
        #![trigger is_reply_chain(fams, path)]
        path.len() > 0 && path[0] == k && is_reply_chain(fams, path) implies path.len() <= m - 1 by {
        let longer = seq![id] + path;
        assert(longer.drop_first() =~= path);
        assert(longer[1] == k);
        assert(is_reply_chain(fams, longer));
    }
}

proof fn lemma_unfold_stable(fams: Seq<Family>, id: Seq<char>, d: nat, f: nat, g: nat)
    requires
        f <= g,
        chains_within(fams, id, f),
    ensures
        unfold(fams, id, d, f) == unfold(fams, id, d, g),
    decreases f, 0nat,
{
    assert(is_reply_chain(fams, seq![id]));
    let kids = kids_of(fams, id);
    assert forall|i: int| 0 <= i < kids.len() implies chains_within(
        fams,
        #[trigger] kids[i],
        (f - 1) as nat,
    ) by {
        assert(kids.contains(kids[i]));
        lemma_chain_from_kid(fams, id, kids[i], f);
    }
    lemma_unfold_kids_stable(fams, kids, d + 1, (f - 1) as nat, (g - 1) as nat);
}

proof fn lemma_unfold_kids_stable(
    fams: Seq<Family>,
    kids: Seq<Seq<char>>,
    d: nat,
    f: nat,
    g: nat,
)
    requires
        f <= g,
        forall|i: int| 0 <= i < kids.len() ==> chains_within(fams, #[trigger] kids[i], f),
    ensures
        unfold_kids(fams, kids, d, f) == unfold_kids(fams, kids, d, g),
    decreases f, kids.len(),
{
    if kids.len() > 0 {
        lemma_unfold_stable(fams, kids.last(), d, f, g);
        let rest = kids.drop_last();
        assert forall|i: int| 0 <= i < rest.len() implies chains_within(fams, #[trigger] rest[i], f) by {
            assert(rest[i] == kids[i]);
        }
        lemma_unfold_kids_stable(fams, rest, d, f, g);
    }
}

proof fn lemma_chain_known(msgs: Seq<Message>, fams: Seq<Family>, path: Seq<Seq<char>>)
    requires
        kids_known(msgs, fams),
        is_reply_chain(fams, path),
        path.len() > 0,
        find_last(msgs, path[0]) is Some,
    ensures
        forall|i: int| 0 <= i < path.len() ==> (#[trigger] find_last(msgs, path[i])) is Some,
    decreases path.len(),
{
    if path.len() > 1 {
        assert(kids_of(fams, path[0]).contains(path[1]));
        let rest = path.drop_first();
        lemma_chain_known(msgs, fams, rest);
        assert forall|i: int| 0 <= i < path.len() implies (#[trigger] find_last(msgs, path[i])) is Some by {
            if i > 0 {
                assert(path[i] == rest[i - 1]);
            }
        }
    }
}

/// The ids of the loaded messages.
pub open spec fn message_ids(msgs: Seq<Message>) -> Seq<Seq<char>> {
    msgs.map_values(|m: Message| m.m_id@)
}

proof fn lemma_acyclic_chains_within(msgs: Seq<Message>, fams: Seq<Family>, id: Seq<char>)
    requires
        kids_known(msgs, fams),
        find_last(msgs, id) is Some,
        no_reply_cycle_below(fams, id),
    ensures
        chains_within(fams, id, msgs.len()),
{
    let ids = message_ids(msgs).to_set();
    message_ids(msgs).lemma_cardinality_of_set();
    vstd::seq_lib::seq_to_set_is_finite(message_ids(msgs));
    assert forall|path: Seq<Seq<char>>|
        #![trigger is_reply_chain(fams, path)]
        path.len() > 0 && path[0] == id && is_reply_chain(fams, path) implies path.len()
            <= msgs.len() by {
        lemma_chain_known(msgs, fams, path);
        assert forall|x: Seq<char>| path.to_set().contains(x) implies ids.contains(x) by {
            let i = choose|i: int| 0 <= i < path.len() && path[i] == x;
            assert(find_last(msgs, path[i]) is Some);
            lemma_find_last_sound(msgs, x);
            let j = find_last(msgs, x)->0;
            assert(message_ids(msgs)[j] == x);
        }
        path.unique_seq_to_set();
        vstd::set_lib::lemma_len_subset(path.to_set(), ids);
    }
}

/// Law: the walk of a thread follows replies as deep as there are loaded
/// messages; when no chain of replies in the thread comes back to an id it
/// has passed, that is the whole thread: following replies any deeper
/// changes nothing.
pub proof fn lemma_walk_is_whole_thread(msgs: Seq<Message>, fams: Seq<Family>, id: Seq<char>, f: nat)
    requires
        kids_known(msgs, fams),
        find_last(msgs, id) is Some,
        no_reply_cycle_below(fams, id),
        f >= msgs.len(),
    ensures
        unfold(fams, id, 0, f) == thread_walk(msgs, fams, id),
{
    lemma_acyclic_chains_within(msgs, fams, id);
    lemma_unfold_stable(fams, id, 0, msgs.len(), f);
}

/// A loaded message carries `id`, and the last one found for it carries it.
pub open spec fn root_known(msgs: Seq<Message>, id: Seq<char>) -> bool {
    &&& find_last(msgs, id) is Some
    &&& 0 <= find_last(msgs, id)->0 < msgs.len()
    &&& msgs[find_last(msgs, id)->0].m_id@ == id
}

/// The patchsets component: the loaded messages, the replies recorded for
/// each id, the thread starts, the selected position and the open thread.
pub struct Patchsets {
    local_mode: LocalMode,
    messages: Vec<Message>,
    families: Vec<Family>,
    roots: Vec<Node>,
    index: usize,
    thread: Vec<String>,
}

impl Patchsets {
    pub closed spec fn mode_view(&self) -> LocalMode {
        self.local_mode
    }

    /// Every message loaded so far, in the order they came.
    pub closed spec fn messages_view(&self) -> Seq<Message> {
        self.messages@
    }

    pub closed spec fn families_view(&self) -> Seq<Family> {
        self.families@
    }

    /// The replies recorded for `p`.
    pub open spec fn replies(&self, p: Seq<char>) -> Seq<Seq<char>> {
        kids_of(self.families_view(), p)
    }

    /// The thread starts, in the listed order.
    pub closed spec fn roots_view(&self) -> Seq<Node> {
        self.roots@
    }

    pub closed spec fn index_view(&self) -> nat {
        self.index as nat
    }

    /// The lines of the opened thread.
    pub closed spec fn thread_view(&self) -> Seq<Seq<char>> {
        ids_view(self.thread@)
    }

    /// The component's invariant: one family per id, every reference list
    /// that is present is non-empty, every thread start is a known message.
    pub closed spec fn wf(&self) -> bool {
        &&& parents_distinct(self.families@)
        &&& kids_known(self.messages@, self.families@)
        &&& forall|k: int| 0 <= k < self.messages@.len() ==> refs_ok(#[trigger] self.messages@[k])
        &&& forall|i: int|
            0 <= i < self.roots@.len() ==> (#[trigger] find_last(
                self.messages@,
                self.roots@[i].m_id@,
            )) is Some
    }

    /// Every recorded reply of a well-formed component is a loaded message.
    pub proof fn lemma_replies_known(&self)
        requires
            self.wf(),
        ensures
            kids_known(self.messages_view(), self.families_view()),
    {
    }

    /// Law: every thread start of a well-formed component is a loaded
    /// message, and the message found for it carries its id, so the listing
    /// has a subject for each thread start.
    pub proof fn lemma_roots_known(&self)
        requires
            self.wf(),
        ensures
            forall|i: int|
                0 <= i < self.roots_view().len() ==> root_known(
                    self.messages_view(),
                    #[trigger] self.roots_view()[i].m_id@,
                ),
    {
        assert forall|i: int| 0 <= i < self.roots_view().len() implies root_known(
            self.messages_view(),
            #[trigger] self.roots_view()[i].m_id@,
        ) by {
            lemma_find_last_sound(self.messages@, self.roots@[i].m_id@);
        }
    }

    /// An empty component, idle.
    pub fn new() -> (res: Self)
        ensures
            res.wf(),
            res.mode_view() == LocalMode::Idle,
            res.messages_view() == Seq::<Message>::empty(),
            res.families_view() == Seq::<Family>::empty(),
            res.roots_view() == Seq::<Node>::empty(),
            res.index_view() == 0,
            res.thread_view() == Seq::<Seq<char>>::empty(),
    {
        let res = Patchsets {
            local_mode: LocalMode::Idle,
            messages: Vec::new(),
            families: Vec::new(),
            roots: Vec::new(),
            index: 0,
            thread: Vec::new(),
        };
        assert(ids_view(res.thread@) =~= Seq::<Seq<char>>::empty());
        res
    }

    /// Takes in a batch of messages and rebuilds the listing: every loaded
    /// message (those of earlier batches too) records its id as a reply to
    /// the last id it refers to, or starts a thread; each list of replies is
    /// ordered latest first; each thread start gets the latest date of its
    /// thread, and the thread starts are ordered by it, latest first.
    pub fn load_messages(&mut self, batch: Vec<Message>)
        requires
            old(self).wf(),
            forall|k: int| 0 <= k < batch@.len() ==> refs_ok(#[trigger] batch@[k]),
        ensures
            final(self).wf(),
            final(self).messages_view() == old(self).messages_view() + batch@,
            forall|p: Seq<char>|
                #![trigger final(self).replies(p)]
                final(self).replies(p).to_multiset() == (old(self).replies(p) + child_ids(
                    final(self).messages_view(),
                    p,
                )).to_multiset(),
            forall|p: Seq<char>|
                #![trigger final(self).replies(p)]
                replies_latest_first(final(self).messages_view(), final(self).replies(p)),
            node_ids(final(self).roots_view()).to_multiset() == (node_ids(old(self).roots_view())
                + root_ids(final(self).messages_view())).to_multiset(),
            forall|i: int|
                0 <= i < final(self).roots_view().len() ==> (#[trigger] final(self).roots_view()[i]).last_updated@ == last_activity(
                    final(self).messages_view(),
                    final(self).families_view(),
                    final(self).roots_view()[i].m_id@,
                ),
            latest_first(final(self).roots_view()),
            forall|k: int|
                0 <= k < final(self).messages_view().len() && (#[trigger] final(self).messages_view()[k]).refs is Some ==> final(self).replies(
                    (final(self).messages_view()[k].refs->0)@[(final(self).messages_view()[k].refs->0)@.len()
                        - 1]@,
                ).contains(final(self).messages_view()[k].m_id@),
            final(self).mode_view() == LocalMode::Listing,
            final(self).index_view() == old(self).index_view(),
            final(self).thread_view() == old(self).thread_view(),
    {
        broadcast use vstd::seq_lib::group_to_multiset_ensures;

        let ghost old_msgs = self.messages@;
        let ghost old_fams = self.families@;
        let ghost old_roots = self.roots@;
        let ghost b = batch@;
        let mut batch = batch;
        self.messages.append(&mut batch);
        assert forall|k: int| 0 <= k < self.messages@.len() implies refs_ok(
            #[trigger] self.messages@[k],
        ) by {
            if k >= old_msgs.len() {
                assert(self.messages@[k] == b[k - old_msgs.len()]);
            }
        }
        proof {
            assert forall|q: Seq<char>, x: Seq<char>|
                #![trigger kids_of(old_fams, q).contains(x)]
                kids_of(old_fams, q).contains(x) implies find_last(self.messages@, x) is Some by {
                lemma_find_last_grow(old_msgs, b, x);
            }
        }
        gather(&self.messages, &mut self.families, &mut self.roots);
        let ghost gathered = self.families@;
        let ghost pre_roots = self.roots@;
        let sorted = sort_families(&self.messages, &self.families);
        self.families = sorted;
        proof {
            assert forall|q: Seq<char>, x: Seq<char>|
                #![trigger kids_of(self.families@, q).contains(x)]
                kids_of(self.families@, q).contains(x) implies find_last(self.messages@, x) is Some by {
                assert(kids_of(self.families@, q).to_multiset().count(x) > 0);
                assert(kids_of(gathered, q).contains(x));
            }
        }
        let refreshed = refresh_roots(&self.messages, &self.families, &self.roots);
        self.roots = sort_latest_first(refreshed);
        self.local_mode = LocalMode::Listing;
        proof {
            let msgs = self.messages@;
            assert forall|k: int|
                0 <= k < msgs.len() && (#[trigger] msgs[k]).refs is Some implies kids_of(
                    self.families@,
                    (msgs[k].refs->0)@[(msgs[k].refs->0)@.len() - 1]@,
                ).contains(msgs[k].m_id@) by {
                let p = (msgs[k].refs->0)@[(msgs[k].refs->0)@.len() - 1]@;
                assert(refs_ok(msgs[k]));
                lemma_replies_follow_last_ref(msgs, p);
                assert(child_ids(msgs, p).contains(msgs[k].m_id@));
                let all = kids_of(old_fams, p) + child_ids(msgs, p);
                let j = choose|j: int| 0 <= j < child_ids(msgs, p).len() && child_ids(msgs, p)[j]
                    == msgs[k].m_id@;
                assert(all[kids_of(old_fams, p).len() + j] == msgs[k].m_id@);
                assert(all.contains(msgs[k].m_id@));
                assert(all.to_multiset().count(msgs[k].m_id@) > 0);
                assert(kids_of(gathered, p) == all);
                assert(kids_of(self.families@, p).to_multiset().count(msgs[k].m_id@) > 0);
            }
            lemma_root_ids_known(msgs);
            assert forall|i: int| 0 <= i < self.roots@.len() implies (#[trigger] find_last(
                msgs,
                self.roots@[i].m_id@,
            )) is Some by {
                let r = self.roots@[i];
                assert(self.roots@.to_multiset().count(r) > 0);
                assert(refreshed@.contains(r));
                let j = choose|j: int| 0 <= j < refreshed@.len() && refreshed@[j] == r;
                assert(node_ids(refreshed@)[j] == r.m_id@);
                assert(node_ids(pre_roots)[j] == r.m_id@);
                assert(node_ids(pre_roots) == node_ids(old_roots) + root_ids(msgs));
                assert(node_ids(old_roots).len() == old_roots.len());
                assert(node_ids(refreshed@).len() == refreshed@.len());
                assert(j < node_ids(pre_roots).len());
                if j < old_roots.len() {
                    assert(node_ids(old_roots)[j] == r.m_id@);
                    lemma_find_last_grow(old_msgs, b, r.m_id@);
                } else {
                    assert(root_ids(msgs)[j - old_roots.len()] == r.m_id@);
                    assert(find_last(msgs, root_ids(msgs)[j - old_roots.len()]) is Some);
                }
            }
            assert forall|i: int| 0 <= i < self.roots@.len() implies (#[trigger] self.roots@[i]).last_updated@
                == last_activity(msgs, self.families@, self.roots@[i].m_id@) by {
                let r = self.roots@[i];
                assert(self.roots@.to_multiset().count(r) > 0);
                assert(refreshed@.contains(r));
            }
        }
    }
    /// Opens the thread of the selected thread start: its lines are appended
    /// to the thread view, the selection goes back to the top.
    pub fn open_thread(&mut self)
        requires
            old(self).wf(),
            old(self).index_view() < old(self).roots_view().len(),
        ensures
            final(self).wf(),
            final(self).thread_view() == old(self).thread_view() + thread_of(
                old(self).messages_view(),
                old(self).families_view(),
                old(self).roots_view()[old(self).index_view() as int].m_id@,
            ),
            final(self).index_view() == 0,
            final(self).mode_view() == LocalMode::Thread,
            final(self).messages_view() == old(self).messages_view(),
            final(self).families_view() == old(self).families_view(),
            final(self).roots_view() == old(self).roots_view(),
    {
        let root_m_id = self.roots[self.index].m_id.clone();
        self.index = 0;
        let mut entries: Vec<(usize, String)> = Vec::new();
        collect_thread(&self.families, &root_m_id, 0, self.messages.len(), &mut entries);
        assert(entries_view(entries@) =~= thread_walk(self.messages@, self.families@, root_m_id@));
        push_thread_lines(&self.messages, &entries, &mut self.thread);
        self.local_mode = LocalMode::Thread;
    }

    /// The action that a key press asks for.
    pub fn handle_key_event(&self, key: Key) -> (res: Option<Action>)
        ensures
            res == match self.mode_view() {
                LocalMode::Listing | LocalMode::Thread => match key {
                    Key::Char('j') => Some(Action::PatchsetsAddIndex),
                    Key::Char('k') => Some(Action::PatchsetsSubIndex),
                    Key::Enter => Some(Action::PatchsetsThread),
                    _ => None,
                },
                LocalMode::Idle => None,
            },
    {
        match self.local_mode {
            LocalMode::Listing | LocalMode::Thread => match key {
                Key::Char('j') => Some(Action::PatchsetsAddIndex),
                Key::Char('k') => Some(Action::PatchsetsSubIndex),
                Key::Enter => Some(Action::PatchsetsThread),
                _ => None,
            },
            LocalMode::Idle => None,
        }
    }

    /// The actions that `update` handles without a failure: moving down
    /// needs a non-empty list on screen, opening a thread needs the
    /// selection to be a thread start.
    pub open spec fn update_ok(&self, action: Action) -> bool {
        &&& (action is PatchsetsAddIndex && self.mode_view() == LocalMode::Listing) ==> self.roots_view().len() > 0
        &&& (action is PatchsetsAddIndex && self.mode_view() == LocalMode::Thread) ==> self.thread_view().len() > 0
        &&& action is PatchsetsThread ==> self.index_view() < self.roots_view().len()
    }

    /// Whether `update` handles `action` without a failure.
    pub fn can_update(&self, action: &Action) -> (res: bool)
        ensures
            res == self.update_ok(*action),
    {
        match action {
            Action::PatchsetsAddIndex => match self.local_mode {
                LocalMode::Listing => self.roots.len() > 0,
                LocalMode::Thread => self.thread.len() > 0,
                LocalMode::Idle => true,
            },
            Action::PatchsetsThread => self.index < self.roots.len(),
            _ => true,
        }
    }

    /// Handles an action. A request to list a message dump is handed back:
    /// the caller reads the dump and passes its messages to `load_messages`.
    pub fn update(&mut self, action: Action) -> (load: Option<String>)
        requires
            old(self).wf(),
            old(self).update_ok(action),
        ensures
            final(self).wf(),
            load == match action {
                Action::PatchsetsList(path) => Some(path),
                _ => None,
            },
            final(self).messages_view() == old(self).messages_view(),
            final(self).families_view() == old(self).families_view(),
            final(self).roots_view() == old(self).roots_view(),
            action is PatchsetsAddIndex ==> final(self).index_view() == index_after_down(
                old(self).mode_view(),
                old(self).index_view(),
                old(self).roots_view().len(),
                old(self).thread_view().len(),
            ),
            action is PatchsetsSubIndex ==> final(self).index_view() == index_after_up(
                old(self).index_view(),
            ),
            action is PatchsetsThread ==> {
                &&& final(self).thread_view() == old(self).thread_view() + thread_of(
                    old(self).messages_view(),
                    old(self).families_view(),
                    old(self).roots_view()[old(self).index_view() as int].m_id@,
                )
                &&& final(self).index_view() == 0
                &&& final(self).mode_view() == LocalMode::Thread
            },
            !(action is PatchsetsThread) ==> {
                &&& final(self).thread_view() == old(self).thread_view()
                &&& final(self).mode_view() == old(self).mode_view()
            },
            !(action is PatchsetsThread || action is PatchsetsAddIndex || action is PatchsetsSubIndex)
                ==> final(self).index_view() == old(self).index_view(),
    {
        match action {
            Action::PatchsetsList(json_path_str) => {
                return Some(json_path_str);
            },
            Action::PatchsetsAddIndex => match self.local_mode {
                LocalMode::Listing => {
                    if self.index < self.roots.len() - 1 {
                        self.index = self.index + 1;
                    }
                },
                LocalMode::Thread => {
                    if self.index < self.thread.len() - 1 {
                        self.index = self.index + 1;
                    }
                },
                LocalMode::Idle => {},
            },
            Action::PatchsetsSubIndex => {
                self.index = if self.index > 0 {
                    self.index - 1
                } else {
                    0
                };
            },
            Action::PatchsetsThread => self.open_thread(),
            _ => {},
        }
        None
    }

    /// What the component is showing.
    pub fn local_mode(&self) -> (res: LocalMode)
        ensures
            res == self.mode_view(),
    {
        self.local_mode
    }

    /// The selected position.
    pub fn index(&self) -> (res: usize)
        ensures
            res == self.index_view(),
    {
        self.index
    }

    /// The subjects of the thread starts, in the listed order.
    pub fn listing(&self) -> (res: Vec<String>)
        requires
            self.wf(),
        ensures
            res@.len() == self.roots_view().len(),
            forall|i: int|
                0 <= i < self.roots_view().len() ==> root_known(
                    self.messages_view(),
                    #[trigger] self.roots_view()[i].m_id@,
                ),
            forall|i: int|
                0 <= i < res@.len() ==> (#[trigger] res@[i])@ == self.messages_view()[find_last(
                    self.messages_view(),
                    self.roots_view()[i].m_id@,
                )->0].subject@,
    {
        let mut res: Vec<String> = Vec::new();
        let mut i: usize = 0;
        while i < self.roots.len()
            invariant
                self.wf(),
                i <= self.roots@.len(),
                res@.len() == i,
                forall|j: int|
                    0 <= j < i ==> (#[trigger] res@[j])@ == self.messages@[find_last(
                        self.messages@,
                        self.roots@[j].m_id@,
                    )->0].subject@,
            decreases self.roots@.len() - i,
        {
            assert(find_last(self.messages@, self.roots@[i as int].m_id@) is Some);
            match find_last_message(&self.messages, &self.roots[i].m_id) {
                Some(k) => res.push(self.messages[k].subject.clone()),
                None => {},
            }
            i = i + 1;
        }
        proof {
            self.lemma_roots_known();
        }
        res
    }

    /// The lines of the opened thread.
    pub fn thread(&self) -> (res: Vec<String>)
        ensures
            ids_view(res@) == self.thread_view(),
    {
        let mut res: Vec<String> = Vec::new();
        let mut i: usize = 0;
        while i < self.thread.len()
            invariant
                i <= self.thread@.len(),
                ids_view(res@) == ids_view(self.thread@.take(i as int)),
            decreases self.thread@.len() - i,
        {
            let ghost before = res@;
            res.push(self.thread[i].clone());
            assert(ids_view(res@) =~= ids_view(before).push(self.thread@[i as int]@));
            assert(ids_view(self.thread@.take(i + 1)) =~= ids_view(self.thread@.take(i as int)).push(
                self.thread@[i as int]@,
            ));
            i = i + 1;
        }
        assert(self.thread@.take(self.thread@.len() as int) =~= self.thread@);
        res
    }

    /// The list on screen: the thread starts while listing, the lines of the
    /// opened thread while showing one, nothing while idle.
    pub fn visible_items(&self) -> (res: Option<Vec<String>>)
        requires
            self.wf(),
        ensures
            self.mode_view() == LocalMode::Idle ==> res is None,
            self.mode_view() == LocalMode::Listing ==> (res matches Some(v) && v@.len()
                == self.roots_view().len() && forall|i: int|
                0 <= i < v@.len() ==> (#[trigger] v@[i])@ == self.messages_view()[find_last(
                    self.messages_view(),
                    self.roots_view()[i].m_id@,
                )->0].subject@),
            self.mode_view() == LocalMode::Thread ==> (res matches Some(v) && ids_view(v@)
                == self.thread_view()),
    {
        match self.local_mode {
            LocalMode::Listing => Some(self.listing()),
            LocalMode::Thread => Some(self.thread()),
            LocalMode::Idle => None,
        }
    }
}

/// The date of the known message of entry `k` of a walk.
pub open spec fn entry_date(msgs: Seq<Message>, entries: Seq<(nat, Seq<char>)>, k: int) -> Seq<char> {
    msgs[find_last(msgs, entries[k].1)->0].date_time@
}

/// The running latest date of a walk is no earlier than the date of any
/// known message of the walk, and it is either empty or one of those dates.
pub proof fn lemma_latest_is_max(msgs: Seq<Message>, entries: Seq<(nat, Seq<char>)>)
    ensures
        forall|k: int|
            0 <= k < entries.len() && find_last(msgs, entries[k].1) is Some ==> !text_lt(
                latest(msgs, entries),
                #[trigger] entry_date(msgs, entries, k),
            ),
        latest(msgs, entries) == Seq::<char>::empty() || exists|k: int|
            0 <= k < entries.len() && find_last(msgs, entries[k].1) is Some && latest(msgs, entries)
                == #[trigger] entry_date(msgs, entries, k),
    decreases entries.len(),
{
    if entries.len() > 0 {
        let d = entries.drop_last();
        lemma_latest_is_max(msgs, d);
        let acc = latest(msgs, d);
        let n = entries.len() - 1;
        assert forall|k: int| 0 <= k < entries.len() && find_last(msgs, entries[k].1) is Some implies !text_lt(
            latest(msgs, entries),
            #[trigger] entry_date(msgs, entries, k),
        ) by {
            let cur = latest(msgs, entries);
            let dk = entry_date(msgs, entries, k);
            if k < n {
                assert(entries[k] == d[k]);
                assert(entry_date(msgs, d, k) == dk);
                assert(!text_lt(acc, dk));
                if cur != acc {
                    // cur is later than acc, which is no earlier than dk
                    crate::text::lemma_text_total(dk, acc);
                    if text_lt(cur, dk) {
                        if text_lt(dk, acc) {
                            crate::text::lemma_text_transitive(cur, dk, acc);
                        }
                        crate::text::lemma_text_transitive(acc, cur, acc);
                        crate::text::lemma_text_irreflexive(acc);
                    }
                }
            } else {
                crate::text::lemma_text_irreflexive(dk);
            }
        }
        if latest(msgs, entries) != acc {
            assert(entry_date(msgs, entries, n) == latest(msgs, entries));
        } else if acc != Seq::<char>::empty() {
            let k = choose|k: int|
                0 <= k < d.len() && find_last(msgs, d[k].1) is Some && acc == #[trigger] entry_date(
                    msgs,
                    d,
                    k,
                );
            assert(entries[k] == d[k]);
            assert(entry_date(msgs, entries, k) == acc);
        }
    }
}

/// Law: the date under which a thread start is listed is the latest date of
/// its thread: no known message of the thread is later, and it is the date
/// of one of them (or empty when none has a date later than the empty one).
pub proof fn lemma_last_activity_is_latest(msgs: Seq<Message>, fams: Seq<Family>, id: Seq<char>)
    ensures
        forall|k: int|
            0 <= k < thread_walk(msgs, fams, id).len() && find_last(
                msgs,
                thread_walk(msgs, fams, id)[k].1,
            ) is Some ==> !text_lt(
                last_activity(msgs, fams, id),
                #[trigger] entry_date(msgs, thread_walk(msgs, fams, id), k),
            ),
        last_activity(msgs, fams, id) == Seq::<char>::empty() || exists|k: int|
            0 <= k < thread_walk(msgs, fams, id).len() && find_last(
                msgs,
                thread_walk(msgs, fams, id)[k].1,
            ) is Some && last_activity(msgs, fams, id) == #[trigger] entry_date(
                msgs,
                thread_walk(msgs, fams, id),
                k,
            ),
{
    lemma_latest_is_max(msgs, thread_walk(msgs, fams, id));
}

proof fn lemma_thread_lines_concat(
    msgs: Seq<Message>,
    a: Seq<(nat, Seq<char>)>,
    b: Seq<(nat, Seq<char>)>,
)
    ensures
        thread_lines(msgs, a + b) == thread_lines(msgs, a) + thread_lines(msgs, b),
    decreases b.len(),
{
    if b.len() == 0 {
        assert(a + b =~= a);
        assert(thread_lines(msgs, a) + thread_lines(msgs, b) =~= thread_lines(msgs, a));
    } else {
        lemma_thread_lines_concat(msgs, a, b.drop_last());
        assert((a + b).drop_last() =~= a + b.drop_last());
        assert((a + b).last() == b.last());
        let x = thread_lines(msgs, a);
        let y = thread_lines(msgs, b.drop_last());
        match find_last(msgs, b.last().1) {
            Some(i) => {
                let l = thread_line(b.last().0, msgs[i].subject@);
                assert((x + y).push(l) =~= x + y.push(l));
            },
            None => {},
        }
    }
}

/// Law: an opened thread starts with the subject of its first message,
/// unindented.
pub proof fn lemma_thread_starts_with_subject(msgs: Seq<Message>, fams: Seq<Family>, id: Seq<char>)
    requires
        find_last(msgs, id) is Some,
    ensures
        thread_of(msgs, fams, id).len() > 0,
        thread_of(msgs, fams, id)[0] == msgs[find_last(msgs, id)->0].subject@,
{
    lemma_find_last_sound(msgs, id);
    let head = seq![(0nat, id)];
    let rest = unfold_kids(fams, kids_of(fams, id), 1, (msgs.len() - 1) as nat);
    assert(thread_walk(msgs, fams, id) == head + rest);
    lemma_thread_lines_concat(msgs, head, rest);
    assert(head.drop_last() =~= Seq::<(nat, Seq<char>)>::empty());
    assert(head.last() == (0nat, id));
    assert(thread_lines(msgs, head.drop_last()) =~= Seq::<Seq<char>>::empty());
    assert(thread_line(0, msgs[find_last(msgs, id)->0].subject@) == msgs[find_last(msgs, id)->0].subject@);
    assert(thread_lines(msgs, head) =~= seq![msgs[find_last(msgs, id)->0].subject@]);
}

} // verus!
