//! Parser for delimiter-encoded commit log text: records separated by one
//! reserved byte, fields within a record by another, and a ref-decoration
//! sub-parser that turns strings such as `(HEAD -> main, origin/main)` into
//! typed references.

use vstd::prelude::*;

use crate::sha_map::ShaMap;
use crate::strutil::{
    contains_char, decode_utf8_str, has_char, is_prefix_of, parse_u64_or_zero,
    parse_u64_or_zero_spec, split_char_spec, split_on_char, split_whitespace_str, split_ws_spec,
    starts_with, str_eq, strip_prefix_str, trim_spec, trim_str,
};
use crate::types::{clone_ref_vec, clone_string_vec, CommitNode, CommitView, RefInfo, RefType, RefView};

verus! {

/// The branch name a `HEAD -> name` part of the decoration names, if any:
/// the first part whose trimmed text starts with the arrow prefix.
pub open spec fn find_head_branch(parts: Seq<Seq<char>>) -> Option<Seq<char>>
    decreases parts.len(),
{
    if parts.len() == 0 {
        None
    } else {
        let p = trim_spec(parts[0]);
        if is_prefix_of("HEAD -> "@, p) {
            Some(trim_spec(p.skip("HEAD -> "@.len() as int)))
        } else {
            find_head_branch(parts.skip(1))
        }
    }
}

/// The references one trimmed decoration part stands for. `hb` is the
/// branch name an earlier `HEAD -> name` resolved, used to mark the current
/// branch.
pub open spec fn classify_part(p: Seq<char>, hb: Option<Seq<char>>) -> Seq<RefView> {
    if p.len() == 0 {
        Seq::<RefView>::empty()
    } else if p == "HEAD"@ {
        seq![RefView { name: "HEAD"@, ref_type: RefType::Head, is_head: true }]
    } else if is_prefix_of("HEAD -> "@, p) {
        seq![
            RefView { name: "HEAD"@, ref_type: RefType::Head, is_head: true },
            RefView {
                name: trim_spec(p.skip("HEAD -> "@.len() as int)),
                ref_type: RefType::Branch,
                is_head: true,
            },
        ]
    } else if is_prefix_of("tag: "@, p) {
        seq![
            RefView {
                name: trim_spec(p.skip("tag: "@.len() as int)),
                ref_type: RefType::Tag,
                is_head: false,
            },
        ]
    } else if is_prefix_of("refs/stash"@, p) || p == "stash"@ {
        seq![RefView { name: p, ref_type: RefType::Stash, is_head: false }]
    } else if is_prefix_of("refs/remotes/"@, p) {
        seq![
            RefView {
                name: p.skip("refs/remotes/"@.len() as int),
                ref_type: RefType::RemoteBranch,
                is_head: false,
            },
        ]
    } else if is_prefix_of("refs/heads/"@, p) {
        seq![
            RefView {
                name: p.skip("refs/heads/"@.len() as int),
                ref_type: RefType::Branch,
                is_head: hb == Some(p.skip("refs/heads/"@.len() as int)),
            },
        ]
    } else if has_char(p, '/') {
        seq![RefView { name: p, ref_type: RefType::RemoteBranch, is_head: false }]
    } else {
        seq![RefView { name: p, ref_type: RefType::Branch, is_head: hb == Some(p) }]
    }
}

/// The references of all decoration parts, in order.
pub open spec fn classify_parts(parts: Seq<Seq<char>>, hb: Option<Seq<char>>) -> Seq<RefView>
    decreases parts.len(),
{
    if parts.len() == 0 {
        Seq::<RefView>::empty()
    } else {
        classify_part(trim_spec(parts[0]), hb) + classify_parts(parts.skip(1), hb)
    }
}

/// What the ref-decoration sub-parser yields: the decoration is trimmed, an
/// enclosing parenthesis pair is stripped, the parts split on commas are
/// classified, and `HEAD -> name` seen anywhere marks `name` current.
pub open spec fn spec_parse_refs(decorate: Seq<char>) -> Seq<RefView> {
    let trimmed = trim_spec(decorate);
    if trimmed.len() == 0 {
        Seq::<RefView>::empty()
    } else {
        let inner = if trimmed[0] == '(' && trimmed.last() == ')' {
            trimmed.subrange(1, trimmed.len() - 1)
        } else {
            trimmed
        };
        let parts = split_char_spec(inner, ',');
        classify_parts(parts, find_head_branch(parts))
    }
}

/// Parse a ref-decoration string into typed references.
pub fn parse_refs(decorate: &str) -> (r: Vec<RefInfo>)
    ensures
        r.deep_view() == spec_parse_refs(decorate@),
{
    let trimmed = trim_str(decorate);
    let tlen = trimmed.as_str().unicode_len();
    if tlen == 0 {
        let r: Vec<RefInfo> = Vec::new();
        proof {
            assert(r.deep_view() =~= spec_parse_refs(decorate@));
        }
        return r;
    }
    let inner: String = if trimmed.as_str().get_char(0) == '(' && trimmed.as_str().get_char(tlen - 1)
        == ')' {
        let s = trimmed.as_str().substring_char(1, tlen - 1).to_owned();
        s
    } else {
        trimmed
    };
    let parts = split_on_char(inner.as_str(), ',');
    let ghost parts_dv = parts.deep_view();
    proof {
        assert(parts_dv.len() == parts@.len());
    }
    let n = parts.len();

    // First pass: resolve the branch that HEAD points at, if any.
    let mut head_branch: Option<String> = None;
    let mut i: usize = 0;
    proof {
        assert(parts_dv.skip(n as int) =~= Seq::<Seq<char>>::empty());
        assert(parts_dv.skip(0) =~= parts_dv);
    }
    while i < n
        invariant_except_break
            head_branch is None,
            find_head_branch(parts_dv) == find_head_branch(parts_dv.skip(i as int)),
        invariant
            i <= n,
            n == parts@.len(),
            parts_dv == parts.deep_view(),
            parts_dv.skip(n as int) == Seq::<Seq<char>>::empty(),
        ensures
            match head_branch {
                Some(h) => find_head_branch(parts_dv) == Some(h@),
                None => find_head_branch(parts_dv) is None,
            },
        decreases n - i,
    {
        let ghost rem = parts_dv.skip(i as int);
        proof {
            assert(parts@[i as int]@ == parts_dv[i as int]);
            assert(rem[0] == parts_dv[i as int]);
            assert(rem.skip(1) =~= parts_dv.skip(i + 1));
        }
        let p = trim_str(parts[i].as_str());
        if let Some(rest) = strip_prefix_str(p.as_str(), "HEAD -> ") {
            head_branch = Some(trim_str(rest.as_str()));
            break ;
        }
        i += 1;
    }
    let ghost hb = find_head_branch(parts_dv);

    // Second pass: classify every part.
    let mut refs: Vec<RefInfo> = Vec::new();
    let mut k: usize = 0;
    proof {
        assert(parts_dv.skip(0) =~= parts_dv);
        assert(refs.deep_view() =~= Seq::<RefView>::empty());
    }
    while k < n
        invariant
            k <= n,
            n == parts@.len(),
            parts_dv == parts.deep_view(),
            hb == find_head_branch(parts_dv),
            match head_branch {
                Some(h) => hb == Some(h@),
                None => hb is None,
            },
            classify_parts(parts_dv, hb) == refs.deep_view() + classify_parts(
                parts_dv.skip(k as int),
                hb,
            ),
        decreases n - k,
    {
        let ghost rem = parts_dv.skip(k as int);
        proof {
            assert(parts@[k as int]@ == parts_dv[k as int]);
            assert(rem[0] == parts_dv[k as int]);
            assert(rem.skip(1) =~= parts_dv.skip(k + 1));
        }
        let p = trim_str(parts[k].as_str());
        let ghost pv = p@;
        let ghost expect = classify_part(pv, hb);
        let ghost before = refs.deep_view();
        let plen = p.as_str().unicode_len();
        if plen == 0 {
            proof {
                assert(refs.deep_view() =~= before + expect);
            }
        } else if str_eq(p.as_str(), "HEAD") {
            refs.push(RefInfo { name: "HEAD".to_owned(), ref_type: RefType::Head, is_head: true });
            proof {
                assert(refs.deep_view() =~= before + expect);
            }
        } else if let Some(rest) = strip_prefix_str(p.as_str(), "HEAD -> ") {
            refs.push(RefInfo { name: "HEAD".to_owned(), ref_type: RefType::Head, is_head: true });
            let branch_name = trim_str(rest.as_str());
            refs.push(RefInfo { name: branch_name, ref_type: RefType::Branch, is_head: true });
            proof {
                assert(refs.deep_view() =~= before + expect);
            }
        } else if let Some(rest) = strip_prefix_str(p.as_str(), "tag: ") {
            let tag_name = trim_str(rest.as_str());
            refs.push(RefInfo { name: tag_name, ref_type: RefType::Tag, is_head: false });
            proof {
                assert(refs.deep_view() =~= before + expect);
            }
        } else if starts_with(p.as_str(), "refs/stash") || str_eq(p.as_str(), "stash") {
            refs.push(RefInfo { name: p, ref_type: RefType::Stash, is_head: false });
            proof {
                assert(refs.deep_view() =~= before + expect);
            }
        } else if let Some(rest) = strip_prefix_str(p.as_str(), "refs/remotes/") {
            refs.push(RefInfo { name: rest, ref_type: RefType::RemoteBranch, is_head: false });
            proof {
                assert(refs.deep_view() =~= before + expect);
            }
        } else if let Some(rest) = strip_prefix_str(p.as_str(), "refs/heads/") {
            let is_head = match &head_branch {
                Some(h) => str_eq(h.as_str(), rest.as_str()),
                None => false,
            };
            refs.push(RefInfo { name: rest, ref_type: RefType::Branch, is_head });
            proof {
                assert(refs.deep_view() =~= before + expect);
            }
        } else if contains_char(p.as_str(), '/') {
            refs.push(RefInfo { name: p, ref_type: RefType::RemoteBranch, is_head: false });
            proof {
                assert(refs.deep_view() =~= before + expect);
            }
        } else {
            let is_head = match &head_branch {
                Some(h) => str_eq(h.as_str(), p.as_str()),
                None => false,
            };
            refs.push(RefInfo { name: p, ref_type: RefType::Branch, is_head });
            proof {
                assert(refs.deep_view() =~= before + expect);
            }
        }
        k += 1;
    }
    proof {
        assert(parts_dv.skip(n as int) =~= Seq::<Seq<char>>::empty());
        assert(refs.deep_view() =~= classify_parts(parts_dv, hb));
    }
    refs
}

/// What one record yields: `None` for a blank record, one with fewer than
/// the ten mandatory fields, or an empty hash; otherwise the commit, its
/// children still empty.
pub open spec fn parse_record_spec(r: Seq<char>) -> Option<CommitView> {
    let rec = trim_spec(r);
    if rec.len() == 0 {
        None
    } else {
        let fields = split_char_spec(rec, '\x00');
        if fields.len() < 10 {
            None
        } else {
            let sha = trim_spec(fields[0]);
            if sha.len() == 0 {
                None
            } else {
                Some(
                    CommitView {
                        sha,
                        short_sha: trim_spec(fields[1]),
                        parents: split_ws_spec(fields[2]),
                        children: Seq::<Seq<char>>::empty(),
                        author_name: fields[3],
                        author_email: fields[4],
                        author_date: parse_u64_or_zero_spec(trim_spec(fields[5])),
                        committer_name: fields[6],
                        committer_email: fields[7],
                        commit_date: parse_u64_or_zero_spec(trim_spec(fields[8])),
                        subject: fields[9],
                        refs: spec_parse_refs(
                            if fields.len() > 10 {
                                fields[10]
                            } else {
                                Seq::<char>::empty()
                            },
                        ),
                        lane: -1,
                        row: -1,
                    },
                )
            }
        }
    }
}

/// The commits of all records, malformed records skipped.
pub open spec fn parse_records(records: Seq<Seq<char>>) -> Seq<CommitView>
    decreases records.len(),
{
    if records.len() == 0 {
        Seq::<CommitView>::empty()
    } else {
        match parse_record_spec(records[0]) {
            Some(c) => seq![c] + parse_records(records.skip(1)),
            None => parse_records(records.skip(1)),
        }
    }
}

/// Hash-to-row index over a batch, later rows winning on a repeated hash.
pub open spec fn sha_index_map(commits: Seq<CommitView>) -> Map<Seq<char>, usize>
    decreases commits.len(),
{
    if commits.len() == 0 {
        Map::<Seq<char>, usize>::empty()
    } else {
        sha_index_map(commits.drop_last()).insert(
            commits.last().sha,
            (commits.len() - 1) as usize,
        )
    }
}

/// The child entries one commit's parent list contributes to the commit at
/// index `j`: one copy of `child_sha` per parent that the index resolves
/// to `j`.
pub open spec fn child_hits(
    parents: Seq<Seq<char>>,
    m: Map<Seq<char>, usize>,
    j: int,
    child_sha: Seq<char>,
) -> Seq<Seq<char>>
    decreases parents.len(),
{
    if parents.len() == 0 {
        Seq::<Seq<char>>::empty()
    } else {
        (if m.contains_key(parents[0]) && m[parents[0]] as int == j {
            seq![child_sha]
        } else {
            Seq::<Seq<char>>::empty()
        }) + child_hits(parents.skip(1), m, j, child_sha)
    }
}

/// The children of the commit at index `j`: contributions of the commits
/// from index `k` on, in batch order.
pub open spec fn children_scan(
    commits: Seq<CommitView>,
    m: Map<Seq<char>, usize>,
    j: int,
    k: int,
) -> Seq<Seq<char>>
    decreases commits.len() - k,
{
    if k >= commits.len() || k < 0 {
        Seq::<Seq<char>>::empty()
    } else {
        child_hits(commits[k].parents, m, j, commits[k].sha) + children_scan(commits, m, j, k + 1)
    }
}

/// The batch with every commit's children derived from the others' parent
/// lists; a parent hash outside the batch contributes nothing.
pub open spec fn link_children(commits: Seq<CommitView>) -> Seq<CommitView> {
    let m = sha_index_map(commits);
    commits.map(
        |j: int, c: CommitView| CommitView { children: children_scan(commits, m, j, 0), ..c },
    )
}

/// What parsing a raw log buffer yields: nothing for text that is not UTF-8,
/// else the linked commits of all records split on the record separator.
pub open spec fn spec_parse_log(raw: Seq<u8>) -> Seq<CommitView> {
    if !vstd::utf8::valid_utf8(raw) {
        Seq::<CommitView>::empty()
    } else {
        link_children(
            parse_records(split_char_spec(vstd::utf8::decode_utf8(raw), '\x1e')),
        )
    }
}

/// Parse raw log bytes into commits, in input order, with children derived.
/// Malformed records are skipped; input that is not valid UTF-8 yields an
/// empty result.
pub fn parse_log(raw: &[u8]) -> (r: Vec<CommitNode>)
    ensures
        r.deep_view() == spec_parse_log(raw@),
{
    let input = match decode_utf8_str(raw) {
        Some(s) => s,
        None => {
            let r: Vec<CommitNode> = Vec::new();
            proof {
                assert(r.deep_view() =~= spec_parse_log(raw@));
            }
            return r;
        },
    };
    let records = split_on_char(input, '\x1e');
    let ghost recs = records.deep_view();
    proof {
        assert(recs.len() == records@.len());
        assert(recs.skip(0) =~= recs);
    }
    let mut commits: Vec<CommitNode> = Vec::new();
    let n = records.len();
    let mut i: usize = 0;
    proof {
        assert(commits.deep_view() =~= Seq::<CommitView>::empty());
    }
    while i < n
        invariant
            i <= n,
            n == records@.len(),
            recs == records.deep_view(),
            parse_records(recs) == commits.deep_view() + parse_records(recs.skip(i as int)),
        decreases n - i,
    {
        let ghost rem = recs.skip(i as int);
        proof {
            assert(records@[i as int]@ == recs[i as int]);
            assert(rem[0] == recs[i as int]);
            assert(rem.skip(1) =~= recs.skip(i + 1));
        }
        let ghost before = commits.deep_view();
        let rec = trim_str(records[i].as_str());
        let rlen = rec.as_str().unicode_len();
        if rlen > 0 {
            let fields = split_on_char(rec.as_str(), '\x00');
            let ghost fdv = fields.deep_view();
            proof {
                assert(fdv.len() == fields@.len());
            }
            if fields.len() >= 10 {
                proof {
                    assert(fields@[0 as int]@ == fdv[0]);
                    assert(fields@[1 as int]@ == fdv[1]);
                    assert(fields@[2 as int]@ == fdv[2]);
                    assert(fields@[3 as int]@ == fdv[3]);
                    assert(fields@[4 as int]@ == fdv[4]);
                    assert(fields@[5 as int]@ == fdv[5]);
                    assert(fields@[6 as int]@ == fdv[6]);
                    assert(fields@[7 as int]@ == fdv[7]);
                    assert(fields@[8 as int]@ == fdv[8]);
                    assert(fields@[9 as int]@ == fdv[9]);
                }
                let sha = trim_str(fields[0].as_str());
                if sha.as_str().unicode_len() > 0 {
                    let short_sha = trim_str(fields[1].as_str());
                    let parents = split_whitespace_str(fields[2].as_str());
                    let author_date = parse_u64_or_zero(trim_str(fields[5].as_str()).as_str());
                    let commit_date = parse_u64_or_zero(trim_str(fields[8].as_str()).as_str());
                    let decorate: String = if fields.len() > 10 {
                        proof {
                            assert(fields@[10 as int]@ == fdv[10]);
                        }
                        fields[10].clone()
                    } else {
                        String::new()
                    };
                    let refs = parse_refs(decorate.as_str());
                    let node = CommitNode {
                        sha,
                        short_sha,
                        parents,
                        children: Vec::new(),
                        author_name: fields[3].clone(),
                        author_email: fields[4].clone(),
                        author_date,
                        committer_name: fields[6].clone(),
                        committer_email: fields[7].clone(),
                        commit_date,
                        subject: fields[9].clone(),
                        refs,
                        lane: -1,
                        row: -1,
                    };
                    proof {
                        assert(node@.children =~= Seq::<Seq<char>>::empty());
                        assert(node@ == parse_record_spec(recs[i as int])->0);
                    }
                    commits.push(node);
                    proof {
                        assert(commits.deep_view() =~= before.push(
                            parse_record_spec(recs[i as int])->0,
                        ));
                        assert(before.push(parse_record_spec(recs[i as int])->0) =~= before + seq![
                            parse_record_spec(recs[i as int])->0,
                        ]);
                    }
                }
            }
        }
        i += 1;
    }
    proof {
        assert(recs.skip(n as int) =~= Seq::<Seq<char>>::empty());
    }
    let ghost cdv = commits.deep_view();
    proof {
        assert(cdv == parse_records(recs));
    }

    // Second pass: index every hash, later rows winning.
    let mut m = ShaMap::new();
    let cn = commits.len();
    let mut t: usize = 0;
    proof {
        assert(cdv.take(0) =~= Seq::<CommitView>::empty());
        assert(cdv.len() == commits@.len());
    }
    while t < cn
        invariant
            t <= cn,
            cn == commits@.len(),
            cdv == commits.deep_view(),
            m.wf(),
            m@ == sha_index_map(cdv.take(t as int)),
        decreases cn - t,
    {
        proof {
            assert(commits@[t as int]@ == cdv[t as int]);
            assert(cdv.take(t + 1).drop_last() =~= cdv.take(t as int));
            assert(cdv.take(t + 1).last() == cdv[t as int]);
        }
        m.insert(commits[t].sha.as_str(), t);
        t += 1;
    }
    proof {
        assert(cdv.take(cn as int) =~= cdv);
    }

    // Third pass: derive each commit's children from the others' parents.
    let mut out: Vec<CommitNode> = Vec::new();
    let mut j: usize = 0;
    proof {
        assert(out.deep_view() =~= link_children(cdv).take(0));
    }
    while j < cn
        invariant
            j <= cn,
            cn == commits@.len(),
            cdv == commits.deep_view(),
            m.wf(),
            m@ == sha_index_map(cdv),
            out.deep_view() == link_children(cdv).take(j as int),
        decreases cn - j,
    {
        let mut kids: Vec<String> = Vec::new();
        let mut k: usize = 0;
        proof {
            assert(kids.deep_view() =~= Seq::<Seq<char>>::empty());
            assert(kids.deep_view() + children_scan(cdv, m@, j as int, 0) =~= children_scan(
                cdv,
                m@,
                j as int,
                0,
            ));
        }
        while k < cn
            invariant
                k <= cn,
                j < cn,
                cn == commits@.len(),
                cdv == commits.deep_view(),
                m.wf(),
                m@ == sha_index_map(cdv),
                children_scan(cdv, m@, j as int, 0) == kids.deep_view() + children_scan(
                    cdv,
                    m@,
                    j as int,
                    k as int,
                ),
            decreases cn - k,
        {
            proof {
                assert(commits@[k as int]@ == cdv[k as int]);
            }
            let ghost kparents = cdv[k as int].parents;
            let np = commits[k].parents.len();
            let mut pi: usize = 0;
            proof {
                assert(kparents.skip(0) =~= kparents);
            }
            while pi < np
                invariant
                    pi <= np,
                    j < cn,
                    k < cn,
                    cn == commits@.len(),
                    cdv == commits.deep_view(),
                    m.wf(),
                    m@ == sha_index_map(cdv),
                    kparents == cdv[k as int].parents,
                    np == commits@[k as int].parents@.len(),
                    np == kparents.len(),
                    children_scan(cdv, m@, j as int, 0) == kids.deep_view() + child_hits(
                        kparents.skip(pi as int),
                        m@,
                        j as int,
                        cdv[k as int].sha,
                    ) + children_scan(cdv, m@, j as int, k + 1),
                decreases np - pi,
            {
                let ghost prem = kparents.skip(pi as int);
                proof {
                    assert(commits@[k as int].parents@[pi as int]@ == kparents[pi as int]);
                    assert(prem[0] == kparents[pi as int]);
                    assert(prem.skip(1) =~= kparents.skip(pi + 1));
                }
                let hit = match m.get(commits[k].parents[pi].as_str()) {
                    Some(v) => v == j,
                    None => false,
                };
                let ghost before_kids = kids.deep_view();
                if hit {
                    kids.push(commits[k].sha.clone());
                    proof {
                        assert(kids.deep_view() =~= before_kids.push(cdv[k as int].sha));
                        assert(before_kids.push(cdv[k as int].sha) =~= before_kids + seq![
                            cdv[k as int].sha,
                        ]);
                        assert(kids.deep_view() + child_hits(
                            kparents.skip(pi + 1),
                            m@,
                            j as int,
                            cdv[k as int].sha,
                        ) =~= before_kids + (seq![cdv[k as int].sha] + child_hits(
                            kparents.skip(pi + 1),
                            m@,
                            j as int,
                            cdv[k as int].sha,
                        )));
                    }
                } else {
                    proof {
                        assert(kids.deep_view() + child_hits(
                            kparents.skip(pi + 1),
                            m@,
                            j as int,
                            cdv[k as int].sha,
                        ) =~= before_kids + (Seq::<Seq<char>>::empty() + child_hits(
                            kparents.skip(pi + 1),
                            m@,
                            j as int,
                            cdv[k as int].sha,
                        )));
                    }
                }
                pi += 1;
            }
            proof {
                assert(kparents.skip(np as int) =~= Seq::<Seq<char>>::empty());
                assert(kids.deep_view() + Seq::<Seq<char>>::empty() =~= kids.deep_view());
            }
            k += 1;
        }
        proof {
            assert(kids.deep_view() + children_scan(cdv, m@, j as int, cn as int)
                =~= kids.deep_view());
            assert(commits@[j as int]@ == cdv[j as int]);
        }
        let c = &commits[j];
        let node = CommitNode {
            sha: c.sha.clone(),
            short_sha: c.short_sha.clone(),
            parents: clone_string_vec(&c.parents),
            children: kids,
            author_name: c.author_name.clone(),
            author_email: c.author_email.clone(),
            author_date: c.author_date,
            committer_name: c.committer_name.clone(),
            committer_email: c.committer_email.clone(),
            commit_date: c.commit_date,
            subject: c.subject.clone(),
            refs: clone_ref_vec(&c.refs),
            lane: c.lane,
            row: c.row,
        };
        let ghost before_out = out.deep_view();
        proof {
            assert(link_children(cdv)[j as int] == CommitView {
                children: children_scan(cdv, sha_index_map(cdv), j as int, 0),
                ..cdv[j as int]
            });
            assert(node@ == link_children(cdv)[j as int]);
        }
        out.push(node);
        proof {
            assert(out.deep_view() =~= before_out.push(link_children(cdv)[j as int]));
            assert(out.deep_view() =~= link_children(cdv).take(j + 1));
        }
        j += 1;
    }
    proof {
        assert(link_children(cdv).take(cn as int) =~= link_children(cdv));
    }
    out
}

} // verus!
