//! Finding the branch that another branch was started from in the lines of
//! `git log --format="%H %D" --decorate=full`: each line is a commit hash, a
//! space, and the references that point at the commit, separated by `, `.
use vstd::prelude::*;
use vstd::string::{StrSliceExecFns, StringExecFns};

verus! {

/// `d` has the separator `, ` at position `i`.
pub open spec fn is_sep(d: Seq<char>, i: int) -> bool {
    0 <= i && i + 1 < d.len() && d[i] == ',' && d[i + 1] == ' '
}

/// The pieces of `d` from position `start` on, split at each separator, with
/// no separator between `start` and `i`.
pub open spec fn pieces_from(d: Seq<char>, start: int, i: int) -> Seq<Seq<char>>
    decreases d.len() - i,
{
    if i >= d.len() {
        seq![d.subrange(start, d.len() as int)]
    } else if is_sep(d, i) {
        seq![d.subrange(start, i)] + pieces_from(d, i + 2, i + 2)
    } else {
        pieces_from(d, start, i + 1)
    }
}

/// `d` split at each `, `.
pub open spec fn pieces(d: Seq<char>) -> Seq<Seq<char>> {
    pieces_from(d, 0, 0)
}

/// The position of the first space of `line` at or after `i`.
pub open spec fn space_from(line: Seq<char>, i: int) -> Option<int>
    decreases line.len() - i,
{
    if i < 0 || i >= line.len() {
        None
    } else if line[i] == ' ' {
        Some(i)
    } else {
        space_from(line, i + 1)
    }
}

pub open spec fn heads_prefix() -> Seq<char> {
    seq!['r', 'e', 'f', 's', '/', 'h', 'e', 'a', 'd', 's', '/']
}

/// The local branch that a reference names, when it is one other than `branch`.
pub open spec fn other_branch(piece: Seq<char>, branch: Seq<char>) -> Option<Seq<char>> {
    if piece.len() >= 11 && piece.take(11) == heads_prefix() && piece.skip(11) != branch {
        Some(piece.skip(11))
    } else {
        None
    }
}

/// The first of the pieces that names a local branch other than `branch`.
pub open spec fn first_other(ps: Seq<Seq<char>>, branch: Seq<char>) -> Option<Seq<char>>
    decreases ps.len(),
{
    if ps.len() == 0 {
        None
    } else if other_branch(ps[0], branch) is Some {
        other_branch(ps[0], branch)
    } else {
        first_other(ps.drop_first(), branch)
    }
}

/// The first local branch other than `branch` among the references of a log line.
pub open spec fn line_base(line: Seq<char>, branch: Seq<char>) -> Option<Seq<char>> {
    match space_from(line, 0) {
        Some(i) => first_other(pieces(line.skip(i + 1)), branch),
        None => None,
    }
}

/// The first line, in order, that names a local branch other than `branch`, and that branch.
pub open spec fn log_base(lines: Seq<Seq<char>>, branch: Seq<char>) -> Option<Seq<char>>
    decreases lines.len(),
{
    if lines.len() == 0 {
        None
    } else if line_base(lines[0], branch) is Some {
        line_base(lines[0], branch)
    } else {
        log_base(lines.drop_first(), branch)
    }
}

fn find_space(line: &str) -> (r: Option<usize>)
    ensures
        r matches Some(i) ==> i < line@.len() && space_from(line@, 0) == Some(i as int),
        r is None ==> space_from(line@, 0) is None,
{
    let n = line.unicode_len();
    let mut i: usize = 0;
    while i < n
        invariant
            n == line@.len(),
            i <= n,
            space_from(line@, 0) == space_from(line@, i as int),
        decreases n - i,
    {
        if line.get_char(i) == ' ' {
            return Some(i);
        }
        i = i + 1;
    }
    None
}

fn split_pieces(d: &str) -> (r: Vec<String>)
    ensures
        r@.map_values(|s: String| s@) == pieces(d@),
{
    let n = d.unicode_len();
    let mut out: Vec<String> = Vec::new();
    let mut start: usize = 0;
    let mut i: usize = 0;
    while i < n
        invariant
            n == d@.len(),
            start <= i <= n,
            out@.map_values(|s: String| s@) + pieces_from(d@, start as int, i as int) == pieces(d@),
        decreases n - i,
    {
        if i + 1 < n && d.get_char(i) == ',' && d.get_char(i + 1) == ' ' {
            let ghost before = out@.map_values(|s: String| s@);
            let piece = String::from_str(d.substring_char(start, i));
            out.push(piece);
            assert(out@.map_values(|s: String| s@) =~= before.push(d@.subrange(start as int, i as int)));
            assert(before.push(d@.subrange(start as int, i as int)) + pieces_from(d@, i + 2, i + 2)
                =~= before + (seq![d@.subrange(start as int, i as int)] + pieces_from(d@, i + 2, i + 2)));
            start = i + 2;
            i = i + 2;
        } else {
            i = i + 1;
        }
    }
    let ghost before = out@.map_values(|s: String| s@);
    out.push(String::from_str(d.substring_char(start, n)));
    assert(out@.map_values(|s: String| s@) =~= before + pieces_from(d@, start as int, i as int));
    out
}

fn other_branch_of(piece: &String, branch: &String) -> (r: Option<String>)
    ensures
        r matches Some(b) ==> other_branch(piece@, branch@) == Some(b@),
        r is None ==> other_branch(piece@, branch@) is None,
{
    let prefix = "refs/heads/";
    proof {
        reveal_strlit("refs/heads/");
    }
    assert(prefix@ =~= heads_prefix());
    let p = piece.as_str();
    let n = p.unicode_len();
    if n < 11 {
        return None;
    }
    let mut i: usize = 0;
    while i < 11
        invariant
            n == piece@.len(),
            n >= 11,
            prefix@ == heads_prefix(),
            p@ == piece@,
            i <= 11,
            forall|k: int| 0 <= k < i ==> piece@[k] == heads_prefix()[k],
        decreases 11 - i,
    {
        if p.get_char(i) != prefix.get_char(i) {
            assert(piece@.take(11)[i as int] != heads_prefix()[i as int]);
            return None;
        }
        i = i + 1;
    }
    assert(piece@.take(11) =~= heads_prefix());
    let rest = String::from_str(p.substring_char(11, n));
    assert(rest@ =~= piece@.skip(11));
    if rest == *branch {
        None
    } else {
        Some(rest)
    }
}

/// The branch that `branch` was started from, read off the log of its own
/// commits: the first local branch other than itself that points at one of
/// them, in the order of the lines, and `default` when there is none.
pub fn base_from_log(branch: &String, default: &String, lines: &Vec<String>) -> (r: String)
    ensures
        r@ == (match log_base(lines@.map_values(|s: String| s@), branch@) {
            Some(b) => b,
            None => default@,
        }),
{
    let ghost all = lines@.map_values(|s: String| s@);
    let mut k: usize = 0;
    assert(all.skip(0) =~= all);
    while k < lines.len()
        invariant
            all == lines@.map_values(|s: String| s@),
            k <= lines@.len(),
            log_base(all, branch@) == log_base(all.skip(k as int), branch@),
        decreases lines@.len() - k,
    {
        let line = lines[k].as_str();
        assert(all.skip(k as int)[0] == line@);
        assert(all.skip(k as int).drop_first() =~= all.skip(k + 1));
        if let Some(sp) = find_space(line) {
            let n = line.unicode_len();
            let rest = line.substring_char(sp + 1, n);
            assert(rest@ =~= line@.skip(sp + 1));
            let ps = split_pieces(rest);
            let ghost pv = ps@.map_values(|s: String| s@);
            let mut t: usize = 0;
            assert(pv.skip(0) =~= pv);
            while t < ps.len()
                invariant
                    pv == ps@.map_values(|s: String| s@),
                    pv == pieces(line@.skip(sp + 1)),
                    space_from(line@, 0) == Some(sp as int),
                    all == lines@.map_values(|s: String| s@),
                    all.skip(k as int).len() > 0,
                    all.skip(k as int)[0] == line@,
                    log_base(all, branch@) == log_base(all.skip(k as int), branch@),
                    t <= ps@.len(),
                    first_other(pv, branch@) == first_other(pv.skip(t as int), branch@),
                decreases ps@.len() - t,
            {
                assert(pv.skip(t as int)[0] == ps@[t as int]@);
                assert(pv.skip(t as int).drop_first() =~= pv.skip(t + 1));
                if let Some(b) = other_branch_of(&ps[t], branch) {
                    assert(first_other(pv, branch@) == Some(b@));
                    assert(space_from(line@, 0) == Some(sp as int));
                    assert(pieces(line@.skip(sp as int + 1)) == pv);
                    assert(line_base(line@, branch@) == Some(b@));
                    assert(log_base(all.skip(k as int), branch@) == Some(b@));
                    return b;
                }
                t = t + 1;
            }
            assert(pv.skip(t as int).len() == 0);
            assert(first_other(pv, branch@) is None);
        }
        assert(line_base(line@, branch@) is None);
        k = k + 1;
    }
    assert(all.skip(k as int).len() == 0);
    default.clone()
}

} // verus!
