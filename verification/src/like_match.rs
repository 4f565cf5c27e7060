use vstd::prelude::*;

verus! {

/// A character as compared by the search: ASCII letters without case,
/// every other character as it is.
pub open spec fn fold_case(c: char) -> int {
    if 'A' <= c && c <= 'Z' {
        c as int + 32
    } else {
        c as int
    }
}

/// Whether `t` matches the search pattern `p`: `%` stands for any run of
/// characters (the empty one too), `_` for exactly one character, and every
/// other character for itself, ASCII letters matching either case.
pub open spec fn like_match(p: Seq<char>, t: Seq<char>) -> bool
    decreases p.len() + t.len(),
{
    if p.len() == 0 {
        t.len() == 0
    } else if p[0] == '%' {
        like_match(p.drop_first(), t) || (t.len() > 0 && like_match(p, t.drop_first()))
    } else if p[0] == '_' {
        t.len() > 0 && like_match(p.drop_first(), t.drop_first())
    } else {
        t.len() > 0 && fold_case(p[0]) == fold_case(t[0]) && like_match(
            p.drop_first(),
            t.drop_first(),
        )
    }
}

fn fold_case_exec(c: char) -> (res: u32)
    ensures
        res as int == fold_case(c),
{
    if 'A' <= c && c <= 'Z' {
        (c as u32) + 32
    } else {
        c as u32
    }
}

proof fn lemma_like_step(p: Seq<char>, t: Seq<char>, i: int, j: int)
    requires
        0 <= i < p.len(),
        0 <= j <= t.len(),
    ensures
        like_match(p.skip(i), t.skip(j)) == (if p[i] == '%' {
            like_match(p.skip(i + 1), t.skip(j)) || (j < t.len() && like_match(
                p.skip(i),
                t.skip(j + 1),
            ))
        } else if p[i] == '_' {
            j < t.len() && like_match(p.skip(i + 1), t.skip(j + 1))
        } else {
            j < t.len() && fold_case(p[i]) == fold_case(t[j]) && like_match(
                p.skip(i + 1),
                t.skip(j + 1),
            )
        }),
{
    assert(p.skip(i).drop_first() =~= p.skip(i + 1));
    assert(p.skip(i)[0] == p[i]);
    if j < t.len() {
        assert(t.skip(j).drop_first() =~= t.skip(j + 1));
        assert(t.skip(j)[0] == t[j]);
    }
}

/// Decides `like_match` on the given characters.
pub fn like_matches(pattern: &Vec<char>, text: &Vec<char>) -> (res: bool)
    ensures
        res == like_match(pattern@, text@),
{
    let plen = pattern.len();
    let tlen = text.len();
    let ghost p = pattern@;
    let ghost t = text@;
    // row[j] tells whether text[j..] matches pattern[i..]; row_end is that for j == tlen
    let mut row: Vec<bool> = Vec::new();
    let mut k: usize = 0;
    while k < tlen
        invariant
            k <= tlen,
            tlen == t.len(),
            row.len() == k,
            forall|m: int| 0 <= m < k ==> row@[m] == false,
        decreases tlen - k,
    {
        row.push(false);
        k = k + 1;
    }
    proof {
        assert forall|m: int| 0 <= m < tlen implies row@[m] == like_match(
            p.skip(plen as int),
            t.skip(m),
        ) by {
            assert(p.skip(plen as int).len() == 0);
        }
        assert(p.skip(plen as int).len() == 0);
        assert(t.skip(tlen as int).len() == 0);
    }
    let mut row_end: bool = true;
    let mut i: usize = plen;
    while i > 0
        invariant
            i <= plen,
            plen == p.len(),
            tlen == t.len(),
            p == pattern@,
            t == text@,
            row.len() == tlen,
            forall|m: int| 0 <= m < tlen ==> row@[m] == like_match(p.skip(i as int), t.skip(m)),
            row_end == like_match(p.skip(i as int), t.skip(tlen as int)),
        decreases i,
    {
        i = i - 1;
        let c = pattern[i];
        let new_end = if c == '%' {
            row_end
        } else {
            false
        };
        proof {
            lemma_like_step(p, t, i as int, tlen as int);
        }
        let mut new_row: Vec<bool> = Vec::new();
        let mut k: usize = 0;
        while k < tlen
            invariant
                k <= tlen,
                new_row.len() == k,
            decreases tlen - k,
        {
            new_row.push(false);
            k = k + 1;
        }
        let mut after = new_end;
        let mut j: usize = tlen;
        while j > 0
            invariant
                j <= tlen,
                i < plen,
                plen == p.len(),
                tlen == t.len(),
                p == pattern@,
                t == text@,
                c == p[i as int],
                row.len() == tlen,
                new_row.len() == tlen,
                forall|m: int|
                    0 <= m < tlen ==> row@[m] == like_match(p.skip(i + 1), t.skip(m)),
                row_end == like_match(p.skip(i + 1), t.skip(tlen as int)),
                forall|m: int|
                    j <= m < tlen ==> new_row@[m] == like_match(p.skip(i as int), t.skip(m)),
                after == like_match(p.skip(i as int), t.skip(j as int)),
            decreases j,
        {
            j = j - 1;
            let row_next = if j + 1 < tlen {
                row[j + 1]
            } else {
                row_end
            };
            let v = if c == '%' {
                row[j] || after
            } else if c == '_' {
                row_next
            } else {
                fold_case_exec(c) == fold_case_exec(text[j]) && row_next
            };
            proof {
                lemma_like_step(p, t, i as int, j as int);
            }
            new_row.set(j, v);
            after = v;
        }
        row = new_row;
        row_end = new_end;
    }
    assert(p.skip(0) =~= p);
    assert(t.skip(0) =~= t);
    if tlen > 0 {
        row[0]
    } else {
        row_end
    }
}

} // verus!
