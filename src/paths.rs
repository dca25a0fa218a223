//! Repository-relative Unix paths turned into paths relative to a package
//! directory.
use vstd::prelude::*;
use crate::kv::{split_bounds, split_char};
use crate::text::{chars_eq, chars_of, push_char, sub_chars};

verus! {

/// The `/`-separated components of a path; the empty path has none.
pub open spec fn components(s: Seq<char>) -> Seq<Seq<char>> {
    if s.len() == 0 {
        Seq::empty()
    } else {
        split_char(s, '/')
    }
}

/// Number of leading components that `a` and `b` share.
pub open spec fn common(a: Seq<Seq<char>>, b: Seq<Seq<char>>) -> nat
    decreases a.len(),
{
    if a.len() > 0 && b.len() > 0 && a[0] == b[0] {
        1 + common(a.drop_first(), b.drop_first())
    } else {
        0
    }
}

/// The components of file `f` seen from directory `p`: one `..` for each
/// component of `p` past what they share, then the rest of `f`.
pub open spec fn relative_components(f: Seq<Seq<char>>, p: Seq<Seq<char>>) -> Seq<Seq<char>> {
    let k = common(f, p);
    Seq::new((p.len() - k) as nat, |_i: int| seq!['.', '.']) + f.skip(k as int)
}

/// Components joined with `/`.
pub open spec fn join(parts: Seq<Seq<char>>) -> Seq<char>
    decreases parts.len(),
{
    if parts.len() == 0 {
        Seq::empty()
    } else if parts.len() == 1 {
        parts[0]
    } else {
        join(parts.drop_last()) + seq!['/'] + parts.last()
    }
}

proof fn lemma_common_bound(a: Seq<Seq<char>>, b: Seq<Seq<char>>)
    ensures
        common(a, b) <= a.len(),
        common(a, b) <= b.len(),
    decreases a.len(),
{
    if a.len() > 0 && b.len() > 0 && a[0] == b[0] {
        lemma_common_bound(a.drop_first(), b.drop_first());
    }
}

fn components_exec(s: &str) -> (r: Vec<Vec<char>>)
    ensures
        r@.map_values(|v: Vec<char>| v@) == components(s@),
{
    let cs = chars_of(s);
    let mut r: Vec<Vec<char>> = Vec::new();
    if cs.len() == 0 {
        assert(r@.map_values(|v: Vec<char>| v@) =~= Seq::<Seq<char>>::empty());
        return r;
    }
    let bounds = split_bounds(&cs, '/');
    let ghost pieces = split_char(cs@, '/');
    let mut j: usize = 0;
    while j < bounds.len()
        invariant
            j <= bounds.len(),
            pieces == split_char(cs@, '/'),
            bounds.len() == pieces.len(),
            forall|q: int|
                #![trigger bounds[q]]
                0 <= q < bounds.len() ==> bounds[q].0 <= bounds[q].1 <= cs.len() && cs@.subrange(
                    bounds[q].0 as int,
                    bounds[q].1 as int,
                ) == pieces[q],
            r@.map_values(|v: Vec<char>| v@) == pieces.take(j as int),
        decreases bounds.len() - j,
    {
        let (a, b) = bounds[j];
        let part = sub_chars(&cs, a, b);
        let ghost r0 = r@;
        r.push(part);
        assert(r@.map_values(|v: Vec<char>| v@) =~= r0.map_values(|v: Vec<char>| v@).push(pieces[j as int]));
        assert(pieces.take(j + 1) =~= pieces.take(j as int).push(pieces[j as int]));
        j += 1;
    }
    assert(pieces.take(bounds.len() as int) =~= pieces);
    r
}

fn same_component(f: &Vec<Vec<char>>, p: &Vec<Vec<char>>, k: usize) -> (r: bool)
    ensures
        r == (k < f.len() && k < p.len() && f@.map_values(|v: Vec<char>| v@)[k as int] == p@.map_values(
            |v: Vec<char>| v@,
        )[k as int]),
{
    if k < f.len() && k < p.len() {
        let a = &f[k];
        assert(a@.subrange(0, a@.len() as int) =~= a@);
        chars_eq(a, 0, a.len(), &p[k])
    } else {
        false
    }
}

fn append_component(out: &mut String, part: &Vec<char>, first: bool)
    ensures
        final(out)@ == if first {
            old(out)@ + part@
        } else {
            old(out)@ + seq!['/'] + part@
        },
{
    let ghost o0 = out@;
    if !first {
        push_char(out, '/');
    }
    let ghost mid = out@;
    let mut q: usize = 0;
    while q < part.len()
        invariant
            q <= part.len(),
            out@ == mid + part@.take(q as int),
        decreases part.len() - q,
    {
        push_char(out, part[q]);
        assert(part@.take(q + 1) =~= part@.take(q as int).push(part@[q as int]));
        q += 1;
    }
    assert(part@.take(part.len() as int) =~= part@);
    assert(first ==> mid =~= o0);
}

proof fn lemma_join_step(parts: Seq<Seq<char>>, i: int)
    requires
        0 <= i < parts.len(),
    ensures
        join(parts.take(i + 1)) == if i == 0 {
            join(parts.take(i)) + parts[i]
        } else {
            join(parts.take(i)) + seq!['/'] + parts[i]
        },
{
    let t = parts.take(i + 1);
    assert(t.drop_last() =~= parts.take(i));
    assert(t.last() == parts[i]);
    if i == 0 {
        assert(join(parts.take(0)) =~= Seq::<char>::empty());
        assert(Seq::<char>::empty() + parts[0] =~= parts[0]);
    }
}

/// Path of `file` relative to the package directory `package`, both
/// relative to the repository root with `/` separators: the part below the
/// package where the file lies inside it, else a path that climbs out with
/// `..`.
pub fn package_relative_path(file: &str, package: &str) -> (r: String)
    ensures
        r@ == join(relative_components(components(file@), components(package@))),
{
    let f = components_exec(file);
    let p = components_exec(package);
    let ghost fv = f@.map_values(|v: Vec<char>| v@);
    let ghost pv = p@.map_values(|v: Vec<char>| v@);
    let mut k: usize = 0;
    assert(fv.skip(0) =~= fv);
    assert(pv.skip(0) =~= pv);
    let mut same = same_component(&f, &p, k);
    while same
        invariant
            same == (k < f.len() && k < p.len() && fv[k as int] == pv[k as int]),
            k <= f.len(),
            k <= p.len(),
            fv == f@.map_values(|v: Vec<char>| v@),
            pv == p@.map_values(|v: Vec<char>| v@),
            common(fv, pv) == k + common(fv.skip(k as int), pv.skip(k as int)),
        decreases f.len() - k,
    {
        proof {
            assert(fv.skip(k as int)[0] == fv[k as int]);
            assert(pv.skip(k as int)[0] == pv[k as int]);
            assert(fv.skip(k as int).drop_first() =~= fv.skip(k + 1));
            assert(pv.skip(k as int).drop_first() =~= pv.skip(k + 1));
        }
        k += 1;
        same = same_component(&f, &p, k);
    }
    proof {
        if k < f.len() && k < p.len() {
            assert(fv.skip(k as int)[0] == fv[k as int]);
            assert(pv.skip(k as int)[0] == pv[k as int]);
        }
        assert(common(fv.skip(k as int), pv.skip(k as int)) == 0);
    }
    let ghost parts = relative_components(fv, pv);
    let mut out = String::new();
    let ups = p.len() - k;
    let dots: Vec<char> = vec!['.', '.'];
    assert(dots@ =~= seq!['.', '.']);
    let mut i: usize = 0;
    assert(parts.take(0) =~= Seq::<Seq<char>>::empty());
    while i < ups
        invariant
            k <= f.len(),
            ups == p.len() - k,
            fv == f@.map_values(|v: Vec<char>| v@),
            pv == p@.map_values(|v: Vec<char>| v@),
            common(fv, pv) == k,
            parts == relative_components(fv, pv),
            dots@ == seq!['.', '.'],
            i <= ups,
            out@ == join(parts.take(i as int)),
        decreases ups - i,
    {
        assert(parts[i as int] == dots@);
        append_component(&mut out, &dots, i == 0);
        proof {
            lemma_join_step(parts, i as int);
        }
        i += 1;
    }
    let mut j = k;
    while j < f.len()
        invariant
            k <= j <= f.len(),
            ups == p.len() - k,
            fv == f@.map_values(|v: Vec<char>| v@),
            pv == p@.map_values(|v: Vec<char>| v@),
            common(fv, pv) == k,
            parts == relative_components(fv, pv),
            out@ == join(parts.take(ups + (j - k))),
        decreases f.len() - j,
    {
        assert(parts[ups + (j - k)] == fv[j as int]);
        assert(fv[j as int] == f@[j as int]@);
        append_component(&mut out, &f[j], ups == 0 && j == k);
        proof {
            lemma_join_step(parts, ups + (j - k));
        }
        j += 1;
    }
    assert(parts.len() == ups + (f.len() - k));
    assert(parts.take(parts.len() as int) =~= parts);
    out
}

} // verus!
