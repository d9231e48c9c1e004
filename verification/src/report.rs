//! Rendering the report.
//!
//! Each group is printed as its key followed by `:`, one line `- <name>` per
//! filename, and a closing blank line — after every group, the last one
//! included. `build_report` is the whole pipeline: it groups the entries and
//! renders the groups.

use vstd::prelude::*;

use crate::grouping::{
    distinct_names, group_files, group_model, group_models, name_views, valid_grouping, DirEntry,
    Group, GroupModel,
};

verus! {

/// The report line of one filename.
pub open spec fn render_name(n: Seq<char>) -> Seq<char> {
    seq!['-', ' '] + n + seq!['\n']
}

/// The report lines of a group's filenames, in order.
pub open spec fn render_names(ns: Seq<Seq<char>>) -> Seq<char>
    decreases ns.len(),
{
    if ns.len() == 0 {
        Seq::empty()
    } else {
        render_names(ns.drop_last()) + render_name(ns.last())
    }
}

/// The text of one group: header, name lines, blank separator line.
pub open spec fn render_group(g: GroupModel) -> Seq<char> {
    g.key + seq![':', '\n'] + render_names(g.names) + seq!['\n']
}

/// The text of the whole report, group after group.
pub open spec fn render_groups(gs: Seq<GroupModel>) -> Seq<char>
    decreases gs.len(),
{
    if gs.len() == 0 {
        Seq::empty()
    } else {
        render_groups(gs.drop_last()) + render_group(gs.last())
    }
}

/// `out` is the report of `entries`: the rendering of a grouping of them.
pub open spec fn is_report_of(entries: Seq<DirEntry>, out: Seq<char>) -> bool {
    exists|gs: Seq<GroupModel>| valid_grouping(entries, gs) && out == render_groups(gs)
}

/// Renders the groups as the report text.
#[verifier::loop_isolation(false)]
pub fn render_report(groups: &Vec<Group>) -> (r: String)
    ensures
        r@ == render_groups(group_models(groups@)),
{
    let ghost gms = group_models(groups@);
    let mut out = String::new();
    proof {
        assert(gms.take(0) =~= Seq::<GroupModel>::empty());
    }
    let mut i: usize = 0;
    while i < groups.len()
        invariant
            i <= groups@.len(),
            out@ == render_groups(gms.take(i as int)),
        decreases groups@.len() - i,
    {
        let g = &groups[i];
        out.append(g.key.as_str());
        out.append(":\n");
        proof {
            reveal_strlit(":\n");
            assert(":\n"@ =~= seq![':', '\n']);
        }
        let ghost header = render_groups(gms.take(i as int)) + g.key@ + seq![':', '\n'];
        proof {
            assert(name_views(g.names@).take(0) =~= Seq::<Seq<char>>::empty());
            assert(out@ =~= header + render_names(name_views(g.names@).take(0)));
        }
        let mut k: usize = 0;
        while k < g.names.len()
            invariant
                k <= g.names@.len(),
                out@ == header + render_names(name_views(g.names@).take(k as int)),
            decreases g.names@.len() - k,
        {
            out.append("- ");
            out.append(g.names[k].as_str());
            out.append("\n");
            proof {
                reveal_strlit("- ");
                reveal_strlit("\n");
                assert("- "@ =~= seq!['-', ' ']);
                assert("\n"@ =~= seq!['\n']);
                let nv = name_views(g.names@);
                assert(nv.take(k + 1).drop_last() =~= nv.take(k as int));
                assert(nv.take(k + 1).last() == g.names@[k as int]@);
                assert(out@ =~= header + render_names(nv.take(k + 1)));
            }
            k = k + 1;
        }
        out.append("\n");
        proof {
            reveal_strlit("\n");
            assert("\n"@ =~= seq!['\n']);
            let nv = name_views(g.names@);
            assert(nv.take(g.names@.len() as int) =~= nv);
            assert(gms.take(i + 1).drop_last() =~= gms.take(i as int));
            assert(gms.take(i + 1).last() == gms[i as int]);
            assert(gms[i as int] == group_model(groups@[i as int]));
            assert(out@ =~= render_groups(gms.take(i + 1)));
        }
        i = i + 1;
    }
    proof {
        assert(gms.take(groups@.len() as int) =~= gms);
    }
    out
}

/// Builds the report of a directory's entries: groups the regular,
/// non-hidden files by key and renders the groups in order.
pub fn build_report(entries: &Vec<DirEntry>) -> (r: String)
    requires
        distinct_names(entries@),
    ensures
        is_report_of(entries@, r@),
{
    let groups = group_files(entries);
    let r = render_report(&groups);
    proof {
        let gs = group_models(groups@);
        assert(valid_grouping(entries@, gs) && r@ == render_groups(gs));
    }
    r
}

/// Two reports of the same entries are byte-identical: building the report
/// twice over an unchanged directory gives the same text.
pub proof fn lemma_report_deterministic(entries: Seq<DirEntry>, r1: Seq<char>, r2: Seq<char>)
    requires
        distinct_names(entries),
        is_report_of(entries, r1),
        is_report_of(entries, r2),
    ensures
        r1 == r2,
{
    let gs1 = choose|gs: Seq<GroupModel>| valid_grouping(entries, gs) && r1 == render_groups(gs);
    let gs2 = choose|gs: Seq<GroupModel>| valid_grouping(entries, gs) && r2 == render_groups(gs);
    crate::grouping::lemma_grouping_unique(entries, gs1, gs2);
}

} // verus!
