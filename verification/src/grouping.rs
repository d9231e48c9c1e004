//! Grouping directory entries by key.
//!
//! `group_files` takes the entries of a directory and produces the groups of
//! the report: one group per key, keys strictly ascending, each group holding
//! the names of the regular, non-hidden files with that key, strictly
//! ascending. `valid_grouping` states exactly that, and is the whole
//! contract; for a directory's entries (whose names are distinct) it
//! determines the groups uniquely.

use vstd::prelude::*;

use crate::extension::{extension_key, has_extension, is_hidden, key_of};
use crate::order::{
    lemma_lex_asymmetric, lemma_lex_connex, lemma_lex_irreflexive, lemma_lex_transitive, lex_lt,
    str_lt,
};

verus! {

/// What kind of filesystem object a directory entry is, after resolving it.
#[derive(Clone, Copy)]
pub enum EntryKind {
    File,
    Directory,
    Other,
}

/// One entry of the scanned directory: its bare name and its resolved kind.
pub struct DirEntry {
    pub name: String,
    pub kind: EntryKind,
}

/// One group of the report: a key and the filenames grouped under it.
pub struct Group {
    pub key: String,
    pub names: Vec<String>,
}

/// The mathematical content of a `Group`.
#[verifier::ext_equal]
pub ghost struct GroupModel {
    pub key: Seq<char>,
    pub names: Seq<Seq<char>>,
}

/// An entry that the report lists: a regular file whose name is not hidden.
pub open spec fn is_reported(e: DirEntry) -> bool {
    e.kind is File && !is_hidden(e.name@)
}

/// The entries' names are pairwise distinct, as they are in a directory.
pub open spec fn distinct_names(es: Seq<DirEntry>) -> bool {
    forall|i: int, j: int| 0 <= i < j < es.len() ==> es[i].name@ != es[j].name@
}

/// The sequences stand in strictly ascending lexicographic order.
pub open spec fn strictly_ascending(s: Seq<Seq<char>>) -> bool {
    forall|i: int, j: int| 0 <= i < j < s.len() ==> lex_lt(s[i], s[j])
}

/// The character sequences of a list of strings.
pub open spec fn name_views(s: Seq<String>) -> Seq<Seq<char>> {
    Seq::new(s.len(), |i: int| s[i]@)
}

/// Some string of `s` reads `n`.
pub open spec fn contains_view(s: Seq<String>, n: Seq<char>) -> bool {
    exists|i: int| 0 <= i < s.len() && s[i]@ == n
}

/// Some string among the first `bound` of `s` reads `n`.
pub open spec fn contains_view_upto(s: Seq<String>, bound: int, n: Seq<char>) -> bool {
    exists|i: int| 0 <= i < bound && i < s.len() && s[i]@ == n
}

/// `n` names a reported entry among the first `bound` of `entries`.
pub open spec fn reported_name_upto(entries: Seq<DirEntry>, bound: int, n: Seq<char>) -> bool {
    exists|t: int|
        0 <= t < bound && t < entries.len() && is_reported(entries[t]) && entries[t].name@ == n
}

/// From `reported_name_upto`, the index of a reported entry with name `n`.
pub proof fn lemma_reported_name_witness(
    entries: Seq<DirEntry>,
    bound: int,
    n: Seq<char>,
) -> (t: int)
    requires
        reported_name_upto(entries, bound, n),
    ensures
        0 <= t < bound,
        t < entries.len(),
        is_reported(entries[t]),
        entries[t].name@ == n,
{
    choose|t: int|
        0 <= t < bound && t < entries.len() && is_reported(entries[t]) && entries[t].name@ == n
}

proof fn lemma_contains_upto_widen(s: Seq<String>, b1: int, b2: int, n: Seq<char>)
    requires
        b1 <= b2,
        contains_view_upto(s, b1, n),
    ensures
        contains_view_upto(s, b2, n),
{
    let i = choose|i: int| 0 <= i < b1 && i < s.len() && s[i]@ == n;
    assert(0 <= i < b2 && i < s.len() && s[i]@ == n);
}

proof fn lemma_reported_upto_widen(entries: Seq<DirEntry>, b1: int, b2: int, n: Seq<char>)
    requires
        b1 <= b2,
        reported_name_upto(entries, b1, n),
    ensures
        reported_name_upto(entries, b2, n),
{
    let t = choose|t: int|
        0 <= t < b1 && t < entries.len() && is_reported(entries[t]) && entries[t].name@ == n;
    assert(0 <= t < b2 && t < entries.len() && is_reported(entries[t]) && entries[t].name@ == n);
}

/// The model of a `Group`.
pub open spec fn group_model(g: Group) -> GroupModel {
    GroupModel { key: g.key@, names: name_views(g.names@) }
}

/// The models of a list of groups.
pub open spec fn group_models(gs: Seq<Group>) -> Seq<GroupModel> {
    Seq::new(gs.len(), |i: int| group_model(gs[i]))
}

/// The name `n` stands in one of the groups.
pub open spec fn listed_in(gs: Seq<GroupModel>, n: Seq<char>) -> bool {
    exists|i: int, k: int|
        0 <= i < gs.len() && 0 <= k < gs[i].names.len() && gs[i].names[k] == n
}

/// `gs` is the grouping of `entries`:
/// keys strictly ascending; within each group, names strictly ascending;
/// no group empty; each group's key is the key of each of its names;
/// every listed name is the name of a reported entry; and every reported
/// entry's name is listed.
pub open spec fn valid_grouping(entries: Seq<DirEntry>, gs: Seq<GroupModel>) -> bool {
    &&& forall|i: int, j: int| 0 <= i < j < gs.len() ==> lex_lt(gs[i].key, gs[j].key)
    &&& forall|i: int| 0 <= i < gs.len() ==> strictly_ascending(#[trigger] gs[i].names)
    &&& forall|i: int| 0 <= i < gs.len() ==> (#[trigger] gs[i].names).len() > 0
    &&& forall|i: int, k: int|
        0 <= i < gs.len() && 0 <= k < gs[i].names.len() ==> gs[i].key == key_of(
            #[trigger] gs[i].names[k],
        )
    &&& forall|i: int, k: int|
        0 <= i < gs.len() && 0 <= k < gs[i].names.len() ==> reported_name_upto(
            entries,
            entries.len() as int,
            #[trigger] gs[i].names[k],
        )
    &&& forall|m: int|
        0 <= m < entries.len() && is_reported(#[trigger] entries[m]) ==> listed_in(
            gs,
            entries[m].name@,
        )
}

/// Decides whether an entry is reported.
pub fn entry_reported(e: &DirEntry) -> (r: bool)
    ensures
        r == is_reported(*e),
{
    match e.kind {
        EntryKind::File => {
            let s = e.name.as_str();
            if s.unicode_len() == 0 {
                true
            } else {
                s.get_char(0) != '.'
            }
        },
        EntryKind::Directory => false,
        EntryKind::Other => false,
    }
}

/// Decides whether some string of `v` reads as `x`.
fn contains_string(v: &Vec<String>, x: &String) -> (r: bool)
    ensures
        r == contains_view(v@, x@),
{
    let mut i: usize = 0;
    while i < v.len()
        invariant
            i <= v@.len(),
            forall|k: int| 0 <= k < i ==> v@[k]@ != x@,
        decreases v@.len() - i,
    {
        if v[i].eq(x) {
            return true;
        }
        i = i + 1;
    }
    false
}

/// Inserts `x` into the strictly sorted `v`, keeping it strictly sorted.
fn insert_sorted(v: &mut Vec<String>, x: String)
    requires
        strictly_ascending(name_views(old(v)@)),
        !contains_view(old(v)@, x@),
    ensures
        strictly_ascending(name_views(final(v)@)),
        final(v)@.len() == old(v)@.len() + 1,
        forall|n: Seq<char>|
            contains_view(final(v)@, n) <==> contains_view(old(v)@, n) || n == x@,
{
    let ghost orig = v@;
    let mut j: usize = 0;
    while j < v.len() && str_lt(v[j].as_str(), x.as_str())
        invariant
            v@ == orig,
            j <= v@.len(),
            forall|k: int| 0 <= k < j ==> lex_lt(v@[k]@, x@),
        decreases v@.len() - j,
    {
        j = j + 1;
    }
    proof {
        assert forall|k: int| j <= k < orig.len() implies lex_lt(x@, orig[k]@) by {
            lemma_lex_connex(orig[j as int]@, x@);
            assert(lex_lt(x@, orig[j as int]@));
            if k > j {
                assert(lex_lt(name_views(orig)[j as int], name_views(orig)[k]));
                lemma_lex_transitive(x@, orig[j as int]@, orig[k]@);
            }
        }
    }
    v.insert(j, x);
    proof {
        orig.insert_ensures(j as int, x);
        assert forall|p: int, q: int| 0 <= p < q < v@.len() implies lex_lt(
            name_views(v@)[p],
            name_views(v@)[q],
        ) by {
            if q < j {
                assert(lex_lt(name_views(orig)[p], name_views(orig)[q]));
            } else if p > j {
                assert(lex_lt(name_views(orig)[p - 1], name_views(orig)[q - 1]));
            } else if p < j && q == j {
                assert(v@[q]@ == x@);
            } else if p == j {
                assert(v@[p]@ == x@);
                assert(v@[q]@ == orig[q - 1]@);
            } else {
                // p < j < q
                assert(lex_lt(v@[p]@, x@));
                assert(lex_lt(x@, orig[q - 1]@));
                lemma_lex_transitive(v@[p]@, x@, orig[q - 1]@);
            }
        }
        assert forall|n: Seq<char>|
            contains_view(v@, n) <==> contains_view(orig, n) || n == x@ by {
            if contains_view(v@, n) {
                let w = choose|i: int| 0 <= i < v@.len() && v@[i]@ == n;
                if w < j {
                    assert(orig[w]@ == n);
                } else if w > j {
                    assert(orig[w - 1]@ == n);
                }
            }
            if contains_view(orig, n) {
                let w = choose|i: int| 0 <= i < orig.len() && orig[i]@ == n;
                if w < j {
                    assert(v@[w]@ == n);
                } else {
                    assert(v@[w + 1]@ == n);
                }
            }
            if n == x@ {
                assert(v@[j as int]@ == n);
            }
        }
    }
}

/// Groups the reported entries' names by their key.
///
/// The names of the regular, non-hidden files among `entries` are grouped by
/// `key_of` of the name; the result holds the keys in strictly ascending
/// order, each with the strictly ascending list of its names, and nothing
/// else. `valid_grouping` states this exactly.
#[verifier::loop_isolation(false)]
pub fn group_files(entries: &Vec<DirEntry>) -> (groups: Vec<Group>)
    requires
        distinct_names(entries@),
    ensures
        valid_grouping(entries@, group_models(groups@)),
{
    // The names to report, in directory order.
    let mut names: Vec<String> = Vec::new();
    let mut m: usize = 0;
    while m < entries.len()
        invariant
            m <= entries@.len(),
            forall|p: int|
                0 <= p < names@.len() ==> reported_name_upto(
                    entries@,
                    m as int,
                    (#[trigger] names@[p])@,
                ),
            forall|t: int|
                0 <= t < m && is_reported(#[trigger] entries@[t]) ==> contains_view(
                    names@,
                    entries@[t].name@,
                ),
            forall|p: int, q: int|
                0 <= p < q < names@.len() ==> (#[trigger] names@[p])@ != (#[trigger] names@[q])@,
        decreases entries@.len() - m,
    {
        let e = &entries[m];
        if entry_reported(e) {
            let ghost pre = names@;
            names.push(e.name.clone());
            proof {
                assert(is_reported(entries@[m as int]));
                assert forall|p: int|
                    0 <= p < names@.len() implies reported_name_upto(
                    entries@,
                    m + 1,
                    (#[trigger] names@[p])@,
                ) by {
                    if p < pre.len() {
                        assert(names@[p] == pre[p]);
                        lemma_reported_upto_widen(entries@, m as int, m + 1, pre[p]@);
                    } else {
                        assert(names@[p] == e.name);
                        assert(0 <= m < m + 1 && is_reported(entries@[m as int])
                            && entries@[m as int].name@ == names@[p]@);
                    }
                }
                assert forall|t: int|
                    0 <= t < m + 1 && is_reported(#[trigger] entries@[t]) implies contains_view(
                    names@,
                    entries@[t].name@,
                ) by {
                    if t < m {
                        let w = choose|w: int| 0 <= w < pre.len() && pre[w]@ == entries@[t].name@;
                        assert(names@[w]@ == entries@[t].name@);
                    } else {
                        assert(names@[pre.len() as int]@ == entries@[t].name@);
                    }
                }
                assert forall|p2: int, q2: int|
                    0 <= p2 < q2 < names@.len() implies (#[trigger] names@[p2])@
                    != (#[trigger] names@[q2])@ by {
                    if q2 == pre.len() {
                        assert(names@[p2] == pre[p2]);
                        let t0 = lemma_reported_name_witness(entries@, m as int, pre[p2]@);
                        assert(entries@[t0].name@ != entries@[m as int].name@);
                    } else {
                        assert(names@[p2] == pre[p2] && names@[q2] == pre[q2]);
                    }
                }
            }
        } else {
            proof {
                assert forall|p: int|
                    0 <= p < names@.len() implies reported_name_upto(
                    entries@,
                    m + 1,
                    (#[trigger] names@[p])@,
                ) by {
                    lemma_reported_upto_widen(entries@, m as int, m + 1, names@[p]@);
                }
            }
        }
        m = m + 1;
    }
    // The distinct keys of those names, strictly ascending.
    let mut keys: Vec<String> = Vec::new();
    let mut p: usize = 0;
    while p < names.len()
        invariant
            p <= names@.len(),
            strictly_ascending(name_views(keys@)),
            forall|n: Seq<char>|
                #[trigger] contains_view(keys@, n) ==> exists|u: int|
                    0 <= u < names@.len() && key_of(names@[u]@) == n,
            forall|u: int|
                0 <= u < p ==> contains_view(keys@, key_of((#[trigger] names@[u])@)),
        decreases names@.len() - p,
    {
        let k = extension_key(&names[p]);
        if !contains_string(&keys, &k) {
            let ghost prek = keys@;
            insert_sorted(&mut keys, k);
            proof {
                assert forall|n: Seq<char>| #[trigger]
                    contains_view(keys@, n) implies exists|u: int|
                    0 <= u < names@.len() && key_of(names@[u]@) == n by {
                    if contains_view(prek, n) {
                    } else {
                        assert(n == k@);
                        assert(0 <= p < names@.len() && key_of(names@[p as int]@) == n);
                    }
                }
                assert forall|u: int|
                    0 <= u < p + 1 implies contains_view(
                    keys@,
                    key_of((#[trigger] names@[u])@),
                ) by {
                }
            }
        }
        p = p + 1;
    }
    // One group per key, with the names that carry it, strictly ascending.
    let mut groups: Vec<Group> = Vec::new();
    let mut gi: usize = 0;
    while gi < keys.len()
        invariant
            gi <= keys@.len(),
            groups@.len() == gi,
            forall|t: int| 0 <= t < gi ==> (#[trigger] groups@[t]).key@ == keys@[t]@,
            forall|t: int|
                0 <= t < gi ==> strictly_ascending(name_views((#[trigger] groups@[t]).names@)),
            forall|t: int| 0 <= t < gi ==> (#[trigger] groups@[t]).names@.len() > 0,
            forall|t: int, n: Seq<char>|
                0 <= t < gi && #[trigger] contains_view(groups@[t].names@, n) ==> key_of(n)
                    == keys@[t]@ && contains_view(names@, n),
            forall|u2: int, t: int|
                0 <= u2 < names@.len() && 0 <= t < gi && key_of((#[trigger] names@[u2])@)
                    == (#[trigger] keys@[t])@ ==> contains_view(groups@[t].names@, names@[u2]@),
        decreases keys@.len() - gi,
    {
        let key = keys[gi].clone();
        let mut members: Vec<String> = Vec::new();
        let mut u: usize = 0;
        while u < names.len()
            invariant
                u <= names@.len(),
                key == keys@[gi as int],
                strictly_ascending(name_views(members@)),
                forall|n: Seq<char>|
                    #[trigger] contains_view(members@, n) ==> contains_view_upto(
                        names@,
                        u as int,
                        n,
                    ) && key_of(n) == key@,
                forall|w: int|
                    0 <= w < u && key_of((#[trigger] names@[w])@) == key@ ==> contains_view(
                        members@,
                        names@[w]@,
                    ),
            decreases names@.len() - u,
        {
            let k2 = extension_key(&names[u]);
            if k2.eq(&key) {
                let ghost prem = members@;
                proof {
                    assert forall|q: int|
                        0 <= q < members@.len() implies members@[q]@ != names@[u as int]@ by {
                        assert(contains_view(members@, members@[q]@));
                        let w = choose|i: int|
                            0 <= i < u && i < names@.len() && names@[i]@ == members@[q]@;
                    }
                    assert(!contains_view(members@, names@[u as int]@));
                }
                insert_sorted(&mut members, names[u].clone());
                proof {
                    assert forall|n: Seq<char>| #[trigger]
                        contains_view(members@, n) implies contains_view_upto(names@, u + 1, n)
                        && key_of(n) == key@ by {
                        if contains_view(prem, n) {
                            lemma_contains_upto_widen(names@, u as int, u + 1, n);
                        } else {
                            assert(n == names@[u as int]@);
                            assert(0 <= u < u + 1 && u < names@.len() && names@[u as int]@ == n);
                        }
                    }
                    assert forall|w: int|
                        0 <= w < u + 1 && key_of((#[trigger] names@[w])@)
                            == key@ implies contains_view(members@, names@[w]@) by {
                        if w < u {
                            assert(contains_view(prem, names@[w]@));
                        } else {
                            assert(names@[w]@ == names@[u as int]@);
                        }
                    }
                }
            } else {
                proof {
                    assert(k2@ != key@);
                    assert forall|n: Seq<char>| #[trigger]
                        contains_view(members@, n) implies contains_view_upto(names@, u + 1, n)
                        && key_of(n) == key@ by {
                        lemma_contains_upto_widen(names@, u as int, u + 1, n);
                    }
                }
            }
            u = u + 1;
        }
        proof {
            assert(contains_view(keys@, keys@[gi as int]@));
            let uw = choose|w: int|
                0 <= w < names@.len() && key_of(names@[w]@) == keys@[gi as int]@;
            assert(contains_view(members@, names@[uw]@));
        }
        let ghost preg = groups@;
        groups.push(Group { key, names: members });
        proof {
            assert forall|t: int, n: Seq<char>|
                0 <= t < gi + 1 && #[trigger] contains_view(groups@[t].names@, n) implies key_of(
                n,
            ) == keys@[t]@ && contains_view(names@, n) by {
                if t < gi {
                    assert(groups@[t] == preg[t]);
                } else {
                    assert(groups@[t].names@ == members@);
                    assert(contains_view_upto(names@, names@.len() as int, n));
                    let w = choose|i: int|
                        0 <= i < names@.len() && i < names@.len() && names@[i]@ == n;
                    assert(names@[w]@ == n);
                }
            }
            assert forall|u2: int, t: int|
                0 <= u2 < names@.len() && 0 <= t < gi + 1 && key_of((#[trigger] names@[u2])@)
                    == (#[trigger] keys@[t])@ implies contains_view(
                groups@[t].names@,
                names@[u2]@,
            ) by {
                if t < gi {
                    assert(groups@[t] == preg[t]);
                } else {
                    assert(groups@[t].names@ == members@);
                }
            }
        }
        gi = gi + 1;
    }
    proof {
        let gs = group_models(groups@);
        assert forall|i: int, k: int|
            0 <= i < gs.len() && 0 <= k < (#[trigger] gs[i].names).len() implies gs[i].key
            == key_of(#[trigger] gs[i].names[k]) && reported_name_upto(
            entries@,
            entries@.len() as int,
            gs[i].names[k],
        ) by {
            assert(gs[i].names[k] == groups@[i].names@[k]@);
            assert(contains_view(groups@[i].names@, groups@[i].names@[k]@));
            assert(contains_view(names@, gs[i].names[k]));
            let w = choose|w: int| 0 <= w < names@.len() && names@[w]@ == gs[i].names[k];
            assert(reported_name_upto(entries@, entries@.len() as int, names@[w]@));
        }
        assert forall|m2: int|
            0 <= m2 < entries@.len() && is_reported(#[trigger] entries@[m2]) implies listed_in(
            gs,
            entries@[m2].name@,
        ) by {
            assert(contains_view(names@, entries@[m2].name@));
            let w = choose|w: int| 0 <= w < names@.len() && names@[w]@ == entries@[m2].name@;
            assert(contains_view(keys@, key_of(names@[w]@)));
            let t = choose|i: int| 0 <= i < keys@.len() && keys@[i]@ == key_of(names@[w]@);
            assert(contains_view(groups@[t].names@, names@[w]@));
            let k = choose|i: int|
                0 <= i < groups@[t].names@.len() && groups@[t].names@[i]@ == names@[w]@;
            assert(0 <= t < gs.len() && 0 <= k < gs[t].names.len() && gs[t].names[k]
                == entries@[m2].name@);
        }
        assert forall|i: int, j: int| 0 <= i < j < gs.len() implies lex_lt(
            gs[i].key,
            gs[j].key,
        ) by {
            assert(lex_lt(name_views(keys@)[i], name_views(keys@)[j]));
        }
        assert(valid_grouping(entries@, gs));
    }
    groups
}

/// Every reported file stands in the groups exactly once: two positions that
/// hold the same name are the same position.
pub proof fn lemma_listed_once(
    entries: Seq<DirEntry>,
    gs: Seq<GroupModel>,
    i1: int,
    k1: int,
    i2: int,
    k2: int,
)
    requires
        valid_grouping(entries, gs),
        0 <= i1 < gs.len(),
        0 <= k1 < gs[i1].names.len(),
        0 <= i2 < gs.len(),
        0 <= k2 < gs[i2].names.len(),
        gs[i1].names[k1] == gs[i2].names[k2],
    ensures
        i1 == i2,
        k1 == k2,
{
    assert(gs[i1].key == key_of(gs[i1].names[k1]));
    assert(gs[i2].key == key_of(gs[i2].names[k2]));
    if i1 < i2 {
        assert(lex_lt(gs[i1].key, gs[i2].key));
        lemma_lex_irreflexive(gs[i1].key);
    } else if i2 < i1 {
        assert(lex_lt(gs[i2].key, gs[i1].key));
        lemma_lex_irreflexive(gs[i1].key);
    }
    if k1 < k2 {
        assert(lex_lt(gs[i1].names[k1], gs[i1].names[k2]));
        lemma_lex_irreflexive(gs[i1].names[k1]);
    } else if k2 < k1 {
        assert(lex_lt(gs[i1].names[k2], gs[i1].names[k1]));
        lemma_lex_irreflexive(gs[i1].names[k1]);
    }
}

/// Two reported files whose names carry the same key — as files whose
/// extensions agree after lowercasing do — always stand in one group.
pub proof fn lemma_same_key_same_group(
    entries: Seq<DirEntry>,
    gs: Seq<GroupModel>,
    m1: int,
    m2: int,
)
    requires
        valid_grouping(entries, gs),
        0 <= m1 < entries.len(),
        0 <= m2 < entries.len(),
        is_reported(entries[m1]),
        is_reported(entries[m2]),
        key_of(entries[m1].name@) == key_of(entries[m2].name@),
    ensures
        exists|i: int|
            0 <= i < gs.len() && (#[trigger] gs[i].names).contains(entries[m1].name@)
                && gs[i].names.contains(entries[m2].name@),
{
    assert(listed_in(gs, entries[m1].name@));
    assert(listed_in(gs, entries[m2].name@));
    let (i1, k1) = choose|i: int, k: int|
        0 <= i < gs.len() && 0 <= k < gs[i].names.len() && gs[i].names[k] == entries[m1].name@;
    let (i2, k2) = choose|i: int, k: int|
        0 <= i < gs.len() && 0 <= k < gs[i].names.len() && gs[i].names[k] == entries[m2].name@;
    assert(gs[i1].key == key_of(entries[m1].name@));
    assert(gs[i2].key == key_of(entries[m2].name@));
    if i1 < i2 {
        assert(lex_lt(gs[i1].key, gs[i2].key));
        lemma_lex_irreflexive(gs[i1].key);
    } else if i2 < i1 {
        assert(lex_lt(gs[i2].key, gs[i1].key));
        lemma_lex_irreflexive(gs[i1].key);
    }
    assert(gs[i1].names.contains(entries[m1].name@));
    assert(gs[i1].names.contains(entries[m2].name@));
}

/// A reported file whose name has no extension stands in the placeholder
/// group: the group whose key is the empty string.
pub proof fn lemma_no_extension_under_placeholder(
    entries: Seq<DirEntry>,
    gs: Seq<GroupModel>,
    m: int,
)
    requires
        valid_grouping(entries, gs),
        0 <= m < entries.len(),
        is_reported(entries[m]),
        !has_extension(entries[m].name@),
    ensures
        exists|i: int, k: int|
            0 <= i < gs.len() && 0 <= k < gs[i].names.len() && (#[trigger] gs[i].names[k])
                == entries[m].name@ && gs[i].key == Seq::<char>::empty(),
{
    assert(listed_in(gs, entries[m].name@));
    let (i, k) = choose|i: int, k: int|
        0 <= i < gs.len() && 0 <= k < gs[i].names.len() && gs[i].names[k] == entries[m].name@;
    assert(gs[i].key == key_of(entries[m].name@));
    assert(0 <= i < gs.len() && 0 <= k < gs[i].names.len() && gs[i].names[k] == entries[m].name@
        && gs[i].key == Seq::<char>::empty());
}

/// A hidden file's name never stands in any group.
pub proof fn lemma_hidden_never_listed(entries: Seq<DirEntry>, gs: Seq<GroupModel>, m: int)
    requires
        distinct_names(entries),
        valid_grouping(entries, gs),
        0 <= m < entries.len(),
        is_hidden(entries[m].name@),
    ensures
        !listed_in(gs, entries[m].name@),
{
    lemma_unreported_never_listed(entries, gs, m);
}

/// A subdirectory's name — any non-file's — never stands in any group.
pub proof fn lemma_non_file_never_listed(entries: Seq<DirEntry>, gs: Seq<GroupModel>, m: int)
    requires
        distinct_names(entries),
        valid_grouping(entries, gs),
        0 <= m < entries.len(),
        !(entries[m].kind is File),
    ensures
        !listed_in(gs, entries[m].name@),
{
    lemma_unreported_never_listed(entries, gs, m);
}

/// Only reported entries — regular files with non-hidden names — are listed.
pub proof fn lemma_unreported_never_listed(entries: Seq<DirEntry>, gs: Seq<GroupModel>, m: int)
    requires
        distinct_names(entries),
        valid_grouping(entries, gs),
        0 <= m < entries.len(),
        !is_reported(entries[m]),
    ensures
        !listed_in(gs, entries[m].name@),
{
    if listed_in(gs, entries[m].name@) {
        let (i, k) = choose|i: int, k: int|
            0 <= i < gs.len() && 0 <= k < gs[i].names.len() && gs[i].names[k]
                == entries[m].name@;
        let t = lemma_reported_name_witness(entries, entries.len() as int, gs[i].names[k]);
        assert(entries[t].name@ == entries[m].name@);
        assert(t == m);
    }
}

/// Strictly ascending lists with the same members are the same list.
pub proof fn lemma_ascending_same_members(x: Seq<Seq<char>>, y: Seq<Seq<char>>)
    requires
        strictly_ascending(x),
        strictly_ascending(y),
        forall|n: Seq<char>| x.contains(n) <==> y.contains(n),
    ensures
        x == y,
    decreases x.len(),
{
    if x.len() == 0 {
        if y.len() > 0 {
            assert(y.contains(y[0]));
            assert(x.contains(y[0]));
        }
        assert(x =~= y);
    } else {
        assert(x.contains(x[0]));
        assert(y.contains(x[0]));
        let ky = choose|i: int| 0 <= i < y.len() && y[i] == x[0];
        assert(y.contains(y[0]));
        assert(x.contains(y[0]));
        let kx = choose|i: int| 0 <= i < x.len() && x[i] == y[0];
        if ky > 0 {
            assert(lex_lt(y[0], x[0]));
            if kx > 0 {
                assert(lex_lt(x[0], y[0]));
                lemma_lex_asymmetric(x[0], y[0]);
            }
            lemma_lex_irreflexive(x[0]);
        }
        assert(x[0] == y[0]);
        let xt = x.skip(1);
        let yt = y.skip(1);
        assert forall|n: Seq<char>| xt.contains(n) <==> yt.contains(n) by {
            if xt.contains(n) {
                let i = choose|i: int| 0 <= i < xt.len() && xt[i] == n;
                assert(x[i + 1] == n);
                assert(x.contains(n));
                assert(y.contains(n));
                let j = choose|j: int| 0 <= j < y.len() && y[j] == n;
                if j == 0 {
                    assert(lex_lt(x[0], x[i + 1]));
                    lemma_lex_irreflexive(x[0]);
                }
                assert(yt[j - 1] == n);
                assert(yt.contains(n));
            }
            if yt.contains(n) {
                let i = choose|i: int| 0 <= i < yt.len() && yt[i] == n;
                assert(y[i + 1] == n);
                assert(y.contains(n));
                assert(x.contains(n));
                let j = choose|j: int| 0 <= j < x.len() && x[j] == n;
                if j == 0 {
                    assert(lex_lt(y[0], y[i + 1]));
                    lemma_lex_irreflexive(y[0]);
                }
                assert(xt[j - 1] == n);
                assert(xt.contains(n));
            }
        }
        assert(strictly_ascending(xt)) by {
            assert(forall|i: int, j: int|
                0 <= i < j < xt.len() ==> xt[i] == x[i + 1] && xt[j] == x[j + 1]);
        }
        assert(strictly_ascending(yt)) by {
            assert(forall|i: int, j: int|
                0 <= i < j < yt.len() ==> yt[i] == y[i + 1] && yt[j] == y[j + 1]);
        }
        lemma_ascending_same_members(xt, yt);
        assert(x =~= y) by {
            assert(forall|i: int| 1 <= i < x.len() ==> x[i] == xt[i - 1] && y[i] == yt[i - 1]);
        }
    }
}

/// A directory's entries have exactly one valid grouping: the report is
/// determined by the directory's contents.
pub proof fn lemma_grouping_unique(
    entries: Seq<DirEntry>,
    g1: Seq<GroupModel>,
    g2: Seq<GroupModel>,
)
    requires
        distinct_names(entries),
        valid_grouping(entries, g1),
        valid_grouping(entries, g2),
    ensures
        g1 == g2,
{
    let kx = Seq::new(g1.len(), |i: int| g1[i].key);
    let ky = Seq::new(g2.len(), |i: int| g2[i].key);
    assert forall|n: Seq<char>| kx.contains(n) <==> ky.contains(n) by {
        if kx.contains(n) {
            let i = choose|i: int| 0 <= i < kx.len() && kx[i] == n;
            lemma_key_carries_over(entries, g1, g2, i);
            let j = choose|j: int| 0 <= j < g2.len() && g2[j].key == g1[i].key;
            assert(ky[j] == n);
            assert(ky.contains(n));
        }
        if ky.contains(n) {
            let i = choose|i: int| 0 <= i < ky.len() && ky[i] == n;
            lemma_key_carries_over(entries, g2, g1, i);
            let j = choose|j: int| 0 <= j < g1.len() && g1[j].key == g2[i].key;
            assert(kx[j] == n);
            assert(kx.contains(n));
        }
    }
    assert(strictly_ascending(kx));
    assert(strictly_ascending(ky));
    lemma_ascending_same_members(kx, ky);
    assert(g1.len() == g2.len());
    assert forall|i: int| 0 <= i < g1.len() implies g1[i] == g2[i] by {
        assert(g1[i].key == kx[i] && g2[i].key == ky[i]);
        assert forall|n: Seq<char>| g1[i].names.contains(n) <==> g2[i].names.contains(n) by {
            if g1[i].names.contains(n) {
                let k = choose|k: int| 0 <= k < g1[i].names.len() && g1[i].names[k] == n;
                lemma_name_carries_over(entries, g1, g2, i, k);
            }
            if g2[i].names.contains(n) {
                let k = choose|k: int| 0 <= k < g2[i].names.len() && g2[i].names[k] == n;
                lemma_name_carries_over(entries, g2, g1, i, k);
                assert(g2[i].key == g1[i].key);
            }
        }
        lemma_ascending_same_members(g1[i].names, g2[i].names);
        assert(g1[i] =~= g2[i]);
    }
    assert(g1 =~= g2);
}

/// A key of one valid grouping is a key of any other.
proof fn lemma_key_carries_over(
    entries: Seq<DirEntry>,
    g1: Seq<GroupModel>,
    g2: Seq<GroupModel>,
    i: int,
)
    requires
        distinct_names(entries),
        valid_grouping(entries, g1),
        valid_grouping(entries, g2),
        0 <= i < g1.len(),
    ensures
        exists|j: int| 0 <= j < g2.len() && (#[trigger] g2[j].key) == g1[i].key,
{
    let n = g1[i].names[0];
    assert(g1[i].key == key_of(n));
    let t = lemma_reported_name_witness(entries, entries.len() as int, n);
    assert(listed_in(g2, entries[t].name@));
    let (j, k) = choose|j: int, k: int|
        0 <= j < g2.len() && 0 <= k < g2[j].names.len() && g2[j].names[k] == entries[t].name@;
    assert(g2[j].key == key_of(n));
}

/// A name listed under a key in one valid grouping is listed at the same
/// position's group in any other grouping whose group there has that key.
proof fn lemma_name_carries_over(
    entries: Seq<DirEntry>,
    g1: Seq<GroupModel>,
    g2: Seq<GroupModel>,
    i: int,
    k: int,
)
    requires
        distinct_names(entries),
        valid_grouping(entries, g1),
        valid_grouping(entries, g2),
        0 <= i < g1.len(),
        0 <= k < g1[i].names.len(),
        i < g2.len(),
        g2[i].key == g1[i].key,
    ensures
        g2[i].names.contains(g1[i].names[k]),
{
    let n = g1[i].names[k];
    assert(g1[i].key == key_of(n));
    let t = lemma_reported_name_witness(entries, entries.len() as int, n);
    assert(listed_in(g2, entries[t].name@));
    let (j, k2) = choose|j: int, k2: int|
        0 <= j < g2.len() && 0 <= k2 < g2[j].names.len() && g2[j].names[k2] == entries[t].name@;
    assert(g2[j].key == key_of(n));
    if j < i {
        assert(lex_lt(g2[j].key, g2[i].key));
        lemma_lex_irreflexive(g2[i].key);
    } else if i < j {
        assert(lex_lt(g2[i].key, g2[j].key));
        lemma_lex_irreflexive(g2[i].key);
    }
    assert(g2[i].names[k2] == n);
}

} // verus!
