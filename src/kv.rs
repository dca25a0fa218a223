//! A small string-to-string map, and `key=value,key=value` lists.
use vstd::prelude::*;
use crate::text::{chars_eq, chars_of, string_from, trim_bounds, trimmed};

verus! {

/// The map that a list of pairs describes; a later pair overrides an earlier
/// one with the same key.
pub open spec fn pairs_map(s: Seq<(Seq<char>, Seq<char>)>) -> Map<Seq<char>, Seq<char>>
    decreases s.len(),
{
    if s.len() == 0 {
        Map::empty()
    } else {
        pairs_map(s.drop_last()).insert(s.last().0, s.last().1)
    }
}

/// The views of a list of string pairs.
pub open spec fn pairs_view(s: Seq<(String, String)>) -> Seq<(Seq<char>, Seq<char>)> {
    s.map_values(|p: (String, String)| (p.0@, p.1@))
}

proof fn lemma_pairs_map_push(s: Seq<(Seq<char>, Seq<char>)>, p: (Seq<char>, Seq<char>))
    ensures
        pairs_map(s.push(p)) == pairs_map(s).insert(p.0, p.1),
{
    assert(s.push(p).drop_last() =~= s);
}

/// A map from strings to strings.
#[derive(Debug, Clone, PartialEq, Eq, Default)]
pub struct KeyValueMap {
    entries: Vec<(String, String)>,
}

impl View for KeyValueMap {
    type V = Map<Seq<char>, Seq<char>>;

    closed spec fn view(&self) -> Map<Seq<char>, Seq<char>> {
        pairs_map(pairs_view(self.entries@))
    }
}

impl KeyValueMap {
    /// The empty map.
    pub fn new() -> (r: Self)
        ensures
            r@ == Map::<Seq<char>, Seq<char>>::empty(),
    {
        KeyValueMap { entries: Vec::new() }
    }

    /// Whether the map holds no key.
    pub fn is_empty(&self) -> (r: bool)
        ensures
            r == (self@ == Map::<Seq<char>, Seq<char>>::empty()),
    {
        let r = self.entries.len() == 0;
        proof {
            let s = pairs_view(self.entries@);
            if s.len() > 0 {
                assert(pairs_map(s).contains_key(s.last().0));
            }
        }
        r
    }

    /// The value stored under `key`.
    pub fn get(&self, key: &str) -> (r: Option<&String>)
        ensures
            match r {
                Some(v) => self@.contains_key(key@) && self@[key@] == v@,
                None => !self@.contains_key(key@),
            },
    {
        let k = chars_of(key);
        let ghost s = pairs_view(self.entries@);
        let mut i = self.entries.len();
        assert(s.take(s.len() as int) =~= s);
        while i > 0
            invariant
                i <= self.entries.len(),
                s == pairs_view(self.entries@),
                k@ == key@,
                pairs_map(s).contains_key(key@) == pairs_map(s.take(i as int)).contains_key(key@),
                pairs_map(s).contains_key(key@) ==> pairs_map(s)[key@] == pairs_map(
                    s.take(i as int),
                )[key@],
            decreases i,
        {
            let kc = chars_of(self.entries[i - 1].0.as_str());
            assert(kc@.subrange(0, kc@.len() as int) =~= kc@);
            let hit = chars_eq(&kc, 0, kc.len(), &k);
            assert(s.take(i - 1) =~= s.take(i as int).drop_last());
            if hit {
                return Some(&self.entries[i - 1].1);
            }
            i -= 1;
        }
        None
    }

    /// Stores `value` under `key`, replacing what was there.
    pub fn insert(&mut self, key: String, value: String)
        ensures
            final(self)@ == old(self)@.insert(key@, value@),
    {
        let ghost s = pairs_view(self.entries@);
        let mut kept: Vec<(String, String)> = Vec::new();
        let k = chars_of(key.as_str());
        let mut i: usize = 0;
        while i < self.entries.len()
            invariant
                i <= self.entries.len(),
                s == pairs_view(self.entries@),
                k@ == key@,
                pairs_map(pairs_view(kept@)) == pairs_map(s.take(i as int)).remove(key@),
            decreases self.entries.len() - i,
        {
            let kc = chars_of(self.entries[i].0.as_str());
            assert(kc@.subrange(0, kc@.len() as int) =~= kc@);
            let hit = chars_eq(&kc, 0, kc.len(), &k);
            assert(s.take(i + 1) =~= s.take(i as int).push(s[i as int]));
            proof {
                lemma_pairs_map_push(s.take(i as int), s[i as int]);
            }
            if !hit {
                let e = (self.entries[i].0.clone(), self.entries[i].1.clone());
                proof {
                    lemma_pairs_map_push(pairs_view(kept@), s[i as int]);
                    assert(pairs_view(kept@.push(e)) =~= pairs_view(kept@).push(s[i as int]));
                    assert(pairs_map(s.take(i as int)).remove(key@).insert(s[i as int].0, s[i as int].1)
                        =~= pairs_map(s.take(i as int)).insert(s[i as int].0, s[i as int].1).remove(key@));
                }
                kept.push(e);
            } else {
                assert(pairs_map(s.take(i as int)).remove(key@) =~= pairs_map(s.take(i as int)).insert(
                    s[i as int].0,
                    s[i as int].1,
                ).remove(key@));
            }
            i += 1;
        }
        assert(s.take(s.len() as int) =~= s);
        let ghost kv = pairs_view(kept@);
        let ghost e = (key@, value@);
        kept.push((key, value));
        proof {
            assert(pairs_view(kept@) =~= kv.push(e));
            lemma_pairs_map_push(kv, e);
            assert(pairs_map(s).remove(e.0).insert(e.0, e.1) =~= pairs_map(s).insert(e.0, e.1));
        }
        *self = KeyValueMap { entries: kept };
    }
}

/// `str::split` on one character: the pieces between separators, one more
/// than there are separators.
pub open spec fn split_char(s: Seq<char>, sep: char) -> Seq<Seq<char>>
    decreases s.len(),
{
    if s.len() == 0 {
        seq![Seq::<char>::empty()]
    } else {
        let init = split_char(s.drop_last(), sep);
        if s.last() == sep {
            init.push(Seq::<char>::empty())
        } else {
            init.update(init.len() - 1, init.last().push(s.last()))
        }
    }
}

/// Bounds in `cs` of the pieces of `split_char(cs, sep)`.
pub fn split_bounds(cs: &Vec<char>, sep: char) -> (r: Vec<(usize, usize)>)
    ensures
        r.len() == split_char(cs@, sep).len(),
        forall|j: int|
            #![trigger r[j]]
            0 <= j < r.len() ==> r[j].0 <= r[j].1 <= cs.len() && cs@.subrange(
                r[j].0 as int,
                r[j].1 as int,
            ) == split_char(cs@, sep)[j],
{
    let mut r: Vec<(usize, usize)> = Vec::new();
    let mut st: usize = 0;
    let mut i: usize = 0;
    assert(cs@.take(0) =~= Seq::<char>::empty());
    while i < cs.len()
        invariant
            st <= i <= cs.len(),
            r.len() + 1 == split_char(cs@.take(i as int), sep).len(),
            forall|j: int|
                #![trigger r[j]]
                0 <= j < r.len() ==> r[j].0 <= r[j].1 <= cs.len() && cs@.subrange(
                    r[j].0 as int,
                    r[j].1 as int,
                ) == split_char(cs@.take(i as int), sep)[j],
            cs@.subrange(st as int, i as int) == split_char(cs@.take(i as int), sep).last(),
        decreases cs.len() - i,
    {
        let ghost pre = split_char(cs@.take(i as int), sep);
        assert(cs@.take(i + 1).drop_last() =~= cs@.take(i as int));
        assert(cs@.take(i + 1).last() == cs@[i as int]);
        let ghost post = split_char(cs@.take(i + 1), sep);
        if cs[i] == sep {
            assert(post == pre.push(Seq::<char>::empty()));
            r.push((st, i));
            st = i + 1;
            assert(cs@.subrange(st as int, i + 1) =~= Seq::<char>::empty());
        } else {
            assert(post == pre.update(pre.len() - 1, pre.last().push(cs@[i as int])));
            assert(cs@.subrange(st as int, i + 1) =~= cs@.subrange(st as int, i as int).push(
                cs@[i as int],
            ));
        }
        assert forall|j: int| 0 <= j < r.len() implies r[j].0 <= r[j].1 <= cs.len() && cs@.subrange(
            r[j].0 as int,
            r[j].1 as int,
        ) == split_char(cs@.take(i + 1), sep)[j] by {
            assert(post[j] == pre[j] || j == r.len() - 1);
        }
        i += 1;
    }
    assert(cs@.take(cs.len() as int) =~= cs@);
    r.push((st, cs.len()));
    assert forall|j: int| 0 <= j < r.len() implies r[j].0 <= r[j].1 <= cs.len() && cs@.subrange(
        r[j].0 as int,
        r[j].1 as int,
    ) == split_char(cs@, sep)[j] by {
        assert(split_char(cs@.take(cs.len() as int), sep)[j] == split_char(cs@, sep)[j]);
    }
    r
}

/// Whether `i` is the first position of `c` in `s`.
pub open spec fn first_at(s: Seq<char>, c: char, i: int) -> bool {
    0 <= i < s.len() && s[i] == c && forall|j: int| 0 <= j < i ==> s[j] != c
}

/// The error text for an entry without `=`.
pub open spec fn format_msg(ctx: Seq<char>) -> Seq<char> {
    ctx + " entries must be in key=value format."@
}

/// The error text for an entry with an empty key.
pub open spec fn empty_key_msg(ctx: Seq<char>) -> Seq<char> {
    ctx + " keys cannot be empty."@
}

/// One entry, already trimmed, added to `m`: blank entries are skipped; the
/// key is what comes before the first `=`, the value what comes after, both
/// trimmed.
pub open spec fn kv_step(m: Map<Seq<char>, Seq<char>>, t: Seq<char>, ctx: Seq<char>) -> Result<
    Map<Seq<char>, Seq<char>>,
    Seq<char>,
> {
    if t.len() == 0 {
        Ok(m)
    } else if exists|i: int| first_at(t, '=', i) {
        let i = choose|i: int| first_at(t, '=', i);
        let k = trimmed(t.take(i));
        if k.len() == 0 {
            Err(empty_key_msg(ctx))
        } else {
            Ok(m.insert(k, trimmed(t.skip(i + 1))))
        }
    } else {
        Err(format_msg(ctx))
    }
}

/// The pieces read in order; the first bad one decides the error.
pub open spec fn kv_fold(pieces: Seq<Seq<char>>, ctx: Seq<char>) -> Result<
    Map<Seq<char>, Seq<char>>,
    Seq<char>,
>
    decreases pieces.len(),
{
    if pieces.len() == 0 {
        Ok(Map::empty())
    } else {
        match kv_fold(pieces.drop_last(), ctx) {
            Err(e) => Err(e),
            Ok(m) => kv_step(m, trimmed(pieces.last()), ctx),
        }
    }
}

proof fn lemma_kv_fold_err(pieces: Seq<Seq<char>>, ctx: Seq<char>, j: int)
    requires
        0 <= j <= pieces.len(),
        kv_fold(pieces.take(j), ctx) is Err,
    ensures
        kv_fold(pieces, ctx) == kv_fold(pieces.take(j), ctx),
    decreases pieces.len() - j,
{
    if j < pieces.len() {
        assert(pieces.take(j + 1).drop_last() =~= pieces.take(j));
        lemma_kv_fold_err(pieces, ctx, j + 1);
    } else {
        assert(pieces.take(j) =~= pieces);
    }
}

/// What a comma-separated `key=value` list denotes, or the error text.
pub open spec fn key_value_pairs(raw: Seq<char>, ctx: Seq<char>) -> Result<
    Map<Seq<char>, Seq<char>>,
    Seq<char>,
> {
    kv_fold(split_char(raw, ','), ctx)
}

/// `ctx` followed by the characters of `tail`.
pub fn message(ctx: &str, tail: &str) -> (r: String)
    ensures
        r@ == ctx@ + tail@,
{
    let mut r = ctx.to_owned();
    r.append(tail);
    r
}

/// Reads a comma-separated list of `key=value` entries; blank entries are
/// skipped and keys and values are trimmed. On error, the text says which
/// rule `ctx` broke.
pub fn parse_pairs(raw: &str, ctx: &str) -> (r: Result<KeyValueMap, String>)
    ensures
        match r {
            Ok(m) => key_value_pairs(raw@, ctx@) == Ok::<Map<Seq<char>, Seq<char>>, Seq<char>>(m@),
            Err(e) => key_value_pairs(raw@, ctx@) == Err::<Map<Seq<char>, Seq<char>>, Seq<char>>(e@),
        },
{
    let cs = chars_of(raw);
    let bounds = split_bounds(&cs, ',');
    let ghost pieces = split_char(cs@, ',');
    let mut map = KeyValueMap::new();
    let mut j: usize = 0;
    assert(pieces.take(0) =~= Seq::<Seq<char>>::empty());
    assert forall|q: int| 0 <= q < bounds.len() implies bounds[q].0 <= bounds[q].1 <= cs.len()
        && cs@.subrange(bounds[q].0 as int, bounds[q].1 as int) == pieces[q] by {
        assert(split_char(cs@, ',')[q] == pieces[q]);
    }
    while j < bounds.len()
        invariant
            j <= bounds.len(),
            cs@ == raw@,
            pieces == split_char(cs@, ','),
            bounds.len() == pieces.len(),
            forall|q: int|
                #![trigger bounds[q]]
                0 <= q < bounds.len() ==> bounds[q].0 <= bounds[q].1 <= cs.len() && cs@.subrange(
                    bounds[q].0 as int,
                    bounds[q].1 as int,
                ) == pieces[q],
            kv_fold(pieces.take(j as int), ctx@) == Ok::<Map<Seq<char>, Seq<char>>, Seq<char>>(
                map@,
            ),
        decreases bounds.len() - j,
    {
        let (a0, b0) = bounds[j];
        assert(cs@.subrange(a0 as int, b0 as int) == pieces[j as int]);
        let (a, b) = trim_bounds(&cs, a0, b0);
        let ghost t = cs@.subrange(a as int, b as int);
        assert(pieces.take(j + 1).drop_last() =~= pieces.take(j as int));
        assert(pieces.take(j + 1).last() == pieces[j as int]);
        if a < b {
            let mut e = a;
            while e < b && cs[e] != '='
                invariant
                    a <= e <= b <= cs.len(),
                    forall|q: int| a <= q < e ==> cs@[q] != '=',
                decreases b - e,
            {
                e += 1;
            }
            if e == b {
                assert(!exists|i: int| first_at(t, '=', i));
                proof {
                    lemma_kv_fold_err(pieces, ctx@, j + 1);
                }
                return Err(message(ctx, " entries must be in key=value format."));
            }
            assert(first_at(t, '=', e - a));
            let ghost i = choose|i: int| first_at(t, '=', i);
            assert(i == e - a);
            let (ka, kb) = trim_bounds(&cs, a, e);
            assert(cs@.subrange(a as int, e as int) =~= t.take(e - a));
            if ka == kb {
                proof {
                    lemma_kv_fold_err(pieces, ctx@, j + 1);
                }
                return Err(message(ctx, " keys cannot be empty."));
            }
            let (va, vb) = trim_bounds(&cs, e + 1, b);
            assert(cs@.subrange(e + 1, b as int) =~= t.skip(e - a + 1));
            let k = string_from(&cs, ka, kb);
            let v = string_from(&cs, va, vb);
            map.insert(k, v);
        }
        j += 1;
    }
    assert(pieces.take(bounds.len() as int) =~= pieces);
    Ok(map)
}

} // verus!
