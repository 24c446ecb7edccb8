//! Auxiliary chunk storage and the header strip policy.
//!
//! Auxiliary chunks live in an insertion-ordered map from 4-byte chunk name
//! (packed big-endian into a `u32`) to payload. The map itself is indexmap's;
//! its behaviour enters the proofs only through the contracts below, each
//! stated over the abstract entry sequence `aux_entries`.

use vstd::prelude::*;

verus! {

#[verifier::external_type_specification]
#[verifier::external_body]
#[verifier::reject_recursive_types(K)]
#[verifier::reject_recursive_types(V)]
#[verifier::reject_recursive_types(S)]
pub struct ExIndexMap<K, V, S>(indexmap::IndexMap<K, V, S>);

/// The ordered name-to-payload map holding every chunk the optimizer does
/// not itself understand.
pub type AuxHeaders = indexmap::IndexMap<u32, Vec<u8>, std::collections::hash_map::RandomState>;

/// The entries of an auxiliary chunk map, in insertion order.
pub uninterp spec fn aux_entries(m: AuxHeaders) -> Seq<(u32, Seq<u8>)>;

/// The names of a list of entries, in order.
pub open spec fn aux_names(entries: Seq<(u32, Seq<u8>)>) -> Seq<u32> {
    entries.map(|i: int, e: (u32, Seq<u8>)| e.0)
}

/// First-match lookup in an entry list.
pub open spec fn spec_aux_lookup(entries: Seq<(u32, Seq<u8>)>, k: u32) -> Option<Seq<u8>>
    decreases entries.len(),
{
    if entries.len() == 0 {
        None
    } else if entries.first().0 == k {
        Some(entries.first().1)
    } else {
        spec_aux_lookup(entries.drop_first(), k)
    }
}

/// The entry list after a map insert: an existing key keeps its position and
/// takes the new payload; a new key is appended.
pub open spec fn spec_aux_insert(entries: Seq<(u32, Seq<u8>)>, k: u32, v: Seq<u8>) -> Seq<
    (u32, Seq<u8>),
>
    decreases entries.len(),
{
    if entries.len() == 0 {
        seq![(k, v)]
    } else if entries.first().0 == k {
        seq![(k, v)] + entries.drop_first()
    } else {
        seq![entries.first()] + spec_aux_insert(entries.drop_first(), k, v)
    }
}

/// The entry list after removing a key, closing the gap.
pub open spec fn spec_aux_remove(entries: Seq<(u32, Seq<u8>)>, k: u32) -> Seq<(u32, Seq<u8>)>
    decreases entries.len(),
{
    if entries.len() == 0 {
        entries
    } else if entries.first().0 == k {
        entries.drop_first()
    } else {
        seq![entries.first()] + spec_aux_remove(entries.drop_first(), k)
    }
}

/// Relies on `indexmap::IndexMap::new`: an empty map.
#[verifier::external_body]
pub fn aux_new() -> (r: AuxHeaders)
    ensures
        aux_entries(r) == Seq::<(u32, Seq<u8>)>::empty(),
{
    indexmap::IndexMap::new()
}

/// Relies on `indexmap::IndexMap::len`: the number of entries.
#[verifier::external_body]
pub fn aux_len(m: &AuxHeaders) -> (r: usize)
    ensures
        r == aux_entries(*m).len(),
{
    m.len()
}

/// Relies on `indexmap::IndexMap::insert`: an equivalent key keeps its place
/// in the order and takes the new value; a new key is appended last.
#[verifier::external_body]
pub fn aux_insert(m: &mut AuxHeaders, k: u32, v: Vec<u8>)
    ensures
        aux_entries(*final(m)) == spec_aux_insert(aux_entries(*old(m)), k, v@),
{
    m.insert(k, v);
}

/// Relies on `indexmap::IndexMap::get`: the value stored for the key, if any.
#[verifier::external_body]
pub fn aux_get<'a>(m: &'a AuxHeaders, k: u32) -> (r: Option<&'a Vec<u8>>)
    ensures
        match r {
            Some(v) => spec_aux_lookup(aux_entries(*m), k) == Some(v@),
            None => spec_aux_lookup(aux_entries(*m), k) is None,
        },
{
    m.get(&k)
}

/// Relies on `indexmap::IndexMap::contains_key`.
#[verifier::external_body]
pub fn aux_contains(m: &AuxHeaders, k: u32) -> (r: bool)
    ensures
        r == spec_aux_lookup(aux_entries(*m), k) is Some,
{
    m.contains_key(&k)
}

/// Relies on `indexmap::IndexMap::shift_remove`: removes the key's entry and
/// shifts the entries after it, keeping their relative order.
#[verifier::external_body]
pub fn aux_shift_remove(m: &mut AuxHeaders, k: u32) -> (r: Option<Vec<u8>>)
    ensures
        aux_entries(*final(m)) == spec_aux_remove(aux_entries(*old(m)), k),
        match r {
            Some(v) => spec_aux_lookup(aux_entries(*old(m)), k) == Some(v@),
            None => spec_aux_lookup(aux_entries(*old(m)), k) is None,
        },
{
    m.shift_remove(&k)
}

/// Relies on `indexmap::IndexMap::keys`: the keys in order.
#[verifier::external_body]
pub fn aux_keys(m: &AuxHeaders) -> (r: Vec<u32>)
    ensures
        r@ == aux_names(aux_entries(*m)),
{
    m.keys().copied().collect()
}

/// Relies on `indexmap::IndexMap::get_index`: the entry at a position.
#[verifier::external_body]
pub fn aux_get_index<'a>(m: &'a AuxHeaders, i: usize) -> (r: Option<(u32, &'a Vec<u8>)>)
    ensures
        match r {
            Some(e) => i < aux_entries(*m).len() && aux_entries(*m)[i as int] == (e.0, e.1@),
            None => i >= aux_entries(*m).len(),
        },
{
    match m.get_index(i) {
        Some((k, v)) => Some((*k, v)),
        None => None,
    }
}

/// Relies on `indexmap::IndexMap::clone` (`K` and `V` both `Clone`): an equal
/// map in the same order.
#[verifier::external_body]
pub fn aux_clone(m: &AuxHeaders) -> (r: AuxHeaders)
    ensures
        aux_entries(r) == aux_entries(*m),
{
    m.clone()
}

/// Pack a 4-byte chunk name big-endian.
pub open spec fn spec_chunk_name(a: u8, b: u8, c: u8, d: u8) -> u32 {
    (a as u32 * 0x100_0000 + b as u32 * 0x1_0000 + c as u32 * 0x100 + d as u32) as u32
}

pub fn chunk_name(a: u8, b: u8, c: u8, d: u8) -> (r: u32)
    ensures
        r == spec_chunk_name(a, b, c, d),
{
    a as u32 * 0x100_0000 + b as u32 * 0x1_0000 + c as u32 * 0x100 + d as u32
}

pub const CHUNK_IHDR: u32 = 0x4948_4452;

pub const CHUNK_PLTE: u32 = 0x504C_5445;

pub const CHUNK_TRNS: u32 = 0x7452_4E53;

pub const CHUNK_IDAT: u32 = 0x4944_4154;

pub const CHUNK_IEND: u32 = 0x4945_4E44;

pub const CHUNK_SRGB: u32 = 0x7352_4742;

pub const CHUNK_ICCP: u32 = 0x6943_4350;

pub const CHUNK_CICP: u32 = 0x6349_4350;

pub const CHUNK_SBIT: u32 = 0x7342_4954;

pub const CHUNK_PHYS: u32 = 0x7048_5973;

pub const CHUNK_CHRM: u32 = 0x6348_524D;

pub const CHUNK_GAMA: u32 = 0x6741_4D41;

/// Chunks that must precede the palette in a serialized file.
pub open spec fn spec_before_plte(name: u32) -> bool {
    name == CHUNK_CHRM || name == CHUNK_GAMA || name == CHUNK_ICCP || name == CHUNK_SBIT || name
        == CHUNK_SRGB || name == CHUNK_CICP
}

pub fn is_before_plte(name: u32) -> (r: bool)
    ensures
        r == spec_before_plte(name),
{
    name == CHUNK_CHRM || name == CHUNK_GAMA || name == CHUNK_ICCP || name == CHUNK_SBIT || name
        == CHUNK_SRGB || name == CHUNK_CICP
}

/// True of the five chunk names the image model itself carries; they never
/// appear among the auxiliary chunks.
pub open spec fn spec_is_critical(name: u32) -> bool {
    name == CHUNK_IHDR || name == CHUNK_PLTE || name == CHUNK_TRNS || name == CHUNK_IDAT || name
        == CHUNK_IEND
}

pub fn is_critical(name: u32) -> (r: bool)
    ensures
        r == spec_is_critical(name),
{
    name == CHUNK_IHDR || name == CHUNK_PLTE || name == CHUNK_TRNS || name == CHUNK_IDAT || name
        == CHUNK_IEND
}

/// Which auxiliary chunks to drop before optimization.
#[derive(Clone, Debug)]
pub enum Headers {
    /// Strip nothing.
    NoStrip,
    /// Keep only the named chunks.
    Keep(Vec<u32>),
    /// Strip exactly the named chunks.
    Strip(Vec<u32>),
    /// Keep only chunks that are safe to keep through any reduction.
    Safe,
    /// Strip every auxiliary chunk.
    All,
}


/// Removing a key empties its lookup and leaves every other key's lookup
/// unchanged, provided keys are distinct.
pub proof fn lemma_lookup_remove(s: Seq<(u32, Seq<u8>)>, k: u32, j: u32)
    requires
        forall|x: int, y: int| 0 <= x < y < s.len() ==> s[x].0 != s[y].0,
    ensures
        spec_aux_lookup(spec_aux_remove(s, k), j) == if j == k {
            Option::<Seq<u8>>::None
        } else {
            spec_aux_lookup(s, j)
        },
    decreases s.len(),
{
    let out = spec_aux_remove(s, k);
    if s.len() == 0 {
    } else if s.first().0 == k {
        assert(out =~= s.drop_first());
        if j == k {
            if spec_aux_lookup(out, k) is Some {
                lemma_lookup_found_index(out, k);
                let q = choose|q: int| 0 <= q < out.len() && out[q].0 == k;
                assert(s[q + 1].0 == k && s[0].0 == k);
            }
        }
    } else {
        assert forall|x: int, y: int|
            0 <= x < y < s.drop_first().len() implies s.drop_first()[x].0 != s.drop_first()[y].0
            by {
            assert(s.drop_first()[x] == s[x + 1] && s.drop_first()[y] == s[y + 1]);
        }
        lemma_lookup_remove(s.drop_first(), k, j);
        let sub = spec_aux_remove(s.drop_first(), k);
        assert(out =~= seq![s.first()] + sub);
        assert(out.first() == s.first());
        assert(out.drop_first() =~= sub);
    }
}

/// A successful lookup has an entry behind it.
pub proof fn lemma_lookup_found_index(s: Seq<(u32, Seq<u8>)>, k: u32)
    requires
        spec_aux_lookup(s, k) is Some,
    ensures
        exists|q: int| 0 <= q < s.len() && (#[trigger] s[q]).0 == k,
    decreases s.len(),
{
    if s.len() == 0 {
    } else if s.first().0 == k {
        assert(s[0].0 == k);
    } else {
        lemma_lookup_found_index(s.drop_first(), k);
        let q = choose|q: int| 0 <= q < s.drop_first().len() && (#[trigger] s.drop_first()[q]).0
            == k;
        assert(s[q + 1].0 == k);
    }
}

/// A key that is no entry's name looks up to nothing.
pub proof fn lemma_lookup_absent(s: Seq<(u32, Seq<u8>)>, k: u32)
    requires
        forall|q: int| 0 <= q < s.len() ==> (#[trigger] s[q]).0 != k,
    ensures
        spec_aux_lookup(s, k) is None,
    decreases s.len(),
{
    if s.len() > 0 {
        assert(s[0].0 != k);
        assert forall|q: int| 0 <= q < s.drop_first().len() implies (
        #[trigger] s.drop_first()[q]).0 != k by {
            assert(s.drop_first()[q] == s[q + 1]);
        }
        lemma_lookup_absent(s.drop_first(), k);
    }
}

/// Inserting a key sets its lookup to the new payload and leaves every
/// other key's lookup unchanged.
pub proof fn lemma_lookup_insert(s: Seq<(u32, Seq<u8>)>, k: u32, v: Seq<u8>, j: u32)
    ensures
        spec_aux_lookup(spec_aux_insert(s, k, v), j) == if j == k {
            Some(v)
        } else {
            spec_aux_lookup(s, j)
        },
    decreases s.len(),
{
    let out = spec_aux_insert(s, k, v);
    if s.len() == 0 {
        assert(out =~= seq![(k, v)]);
        assert(out.first() == (k, v));
        assert(out.drop_first() =~= Seq::<(u32, Seq<u8>)>::empty());
        assert(spec_aux_lookup(out, j) == (if out.first().0 == j {
            Some(out.first().1)
        } else {
            spec_aux_lookup(out.drop_first(), j)
        }));
        assert(spec_aux_lookup(Seq::<(u32, Seq<u8>)>::empty(), j) is None);
    } else if s.first().0 == k {
        assert(out =~= seq![(k, v)] + s.drop_first());
        assert(out.first() == (k, v));
        assert(out.drop_first() =~= s.drop_first());
        assert(spec_aux_lookup(out, j) == (if out.first().0 == j {
            Some(out.first().1)
        } else {
            spec_aux_lookup(out.drop_first(), j)
        }));
        assert(spec_aux_lookup(s, j) == (if s.first().0 == j {
            Some(s.first().1)
        } else {
            spec_aux_lookup(s.drop_first(), j)
        }));
    } else {
        lemma_lookup_insert(s.drop_first(), k, v, j);
        let sub = spec_aux_insert(s.drop_first(), k, v);
        assert(out =~= seq![s.first()] + sub);
        assert(out.first() == s.first());
        assert(out.drop_first() =~= sub);
        assert(spec_aux_lookup(out, j) == (if out.first().0 == j {
            Some(out.first().1)
        } else {
            spec_aux_lookup(out.drop_first(), j)
        }));
        assert(spec_aux_lookup(s, j) == (if s.first().0 == j {
            Some(s.first().1)
        } else {
            spec_aux_lookup(s.drop_first(), j)
        }));
    }
}


/// The entries whose names satisfy a predicate, in their original order.
pub open spec fn spec_aux_filter(entries: Seq<(u32, Seq<u8>)>, pred: spec_fn(u32) -> bool) -> Seq<
    (u32, Seq<u8>),
>
    decreases entries.len(),
{
    if entries.len() == 0 {
        entries
    } else {
        let rest = spec_aux_filter(entries.drop_first(), pred);
        if pred(entries.first().0) {
            seq![entries.first()] + rest
        } else {
            rest
        }
    }
}

/// Predicates that agree on every entry's name filter alike.
pub proof fn lemma_aux_filter_ext(
    entries: Seq<(u32, Seq<u8>)>,
    p: spec_fn(u32) -> bool,
    q: spec_fn(u32) -> bool,
)
    requires
        forall|j: int| 0 <= j < entries.len() ==> p((#[trigger] entries[j]).0) == q(entries[j].0),
    ensures
        spec_aux_filter(entries, p) == spec_aux_filter(entries, q),
    decreases entries.len(),
{
    if entries.len() > 0 {
        assert(entries[0].0 == entries.first().0);
        assert forall|j: int|
            0 <= j < entries.drop_first().len() implies p(
            (#[trigger] entries.drop_first()[j]).0,
        ) == q(entries.drop_first()[j].0) by {
            assert(entries.drop_first()[j] == entries[j + 1]);
        }
        lemma_aux_filter_ext(entries.drop_first(), p, q);
    }
}

/// A predicate true of every entry's name keeps the list whole.
pub proof fn lemma_aux_filter_all(entries: Seq<(u32, Seq<u8>)>, p: spec_fn(u32) -> bool)
    requires
        forall|j: int| 0 <= j < entries.len() ==> p((#[trigger] entries[j]).0),
    ensures
        spec_aux_filter(entries, p) == entries,
    decreases entries.len(),
{
    if entries.len() > 0 {
        assert(entries[0].0 == entries.first().0);
        assert forall|j: int|
            0 <= j < entries.drop_first().len() implies p(
            (#[trigger] entries.drop_first()[j]).0,
        ) by {
            assert(entries.drop_first()[j] == entries[j + 1]);
        }
        lemma_aux_filter_all(entries.drop_first(), p);
        assert(spec_aux_filter(entries, p) =~= entries);
    }
}

/// A predicate false of every entry's name empties the list.
pub proof fn lemma_aux_filter_none(entries: Seq<(u32, Seq<u8>)>, p: spec_fn(u32) -> bool)
    requires
        forall|j: int| 0 <= j < entries.len() ==> !p((#[trigger] entries[j]).0),
    ensures
        spec_aux_filter(entries, p) == Seq::<(u32, Seq<u8>)>::empty(),
    decreases entries.len(),
{
    if entries.len() > 0 {
        assert(entries[0].0 == entries.first().0);
        assert forall|j: int|
            0 <= j < entries.drop_first().len() implies !p(
            (#[trigger] entries.drop_first()[j]).0,
        ) by {
            assert(entries.drop_first()[j] == entries[j + 1]);
        }
        lemma_aux_filter_none(entries.drop_first(), p);
    }
}

/// The predicate holding of every name but `k`.
pub open spec fn pred_ne(k: u32) -> spec_fn(u32) -> bool {
    |n: u32| n != k
}

/// The conjunction of two name predicates.
pub open spec fn pred_and(p: spec_fn(u32) -> bool, q: spec_fn(u32) -> bool) -> spec_fn(
    u32,
) -> bool {
    |n: u32| p(n) && q(n)
}

/// Removing a key from a distinct-keyed list is filtering its name out.
pub proof fn lemma_remove_is_filter(entries: Seq<(u32, Seq<u8>)>, k: u32)
    requires
        forall|x: int, y: int| 0 <= x < y < entries.len() ==> entries[x].0 != entries[y].0,
    ensures
        spec_aux_remove(entries, k) == spec_aux_filter(entries, pred_ne(k)),
    decreases entries.len(),
{
    let p = pred_ne(k);
    if entries.len() == 0 {
    } else if entries.first().0 == k {
        assert forall|j: int|
            0 <= j < entries.drop_first().len() implies p(
            (#[trigger] entries.drop_first()[j]).0,
        ) by {
            assert(entries.drop_first()[j] == entries[j + 1]);
            assert(entries[0].0 == k);
        }
        lemma_aux_filter_all(entries.drop_first(), p);
    } else {
        assert forall|x: int, y: int|
            0 <= x < y < entries.drop_first().len() implies entries.drop_first()[x].0
            != entries.drop_first()[y].0 by {
            assert(entries.drop_first()[x] == entries[x + 1] && entries.drop_first()[y]
                == entries[y + 1]);
        }
        lemma_remove_is_filter(entries.drop_first(), k);
        assert(spec_aux_remove(entries, k) =~= spec_aux_filter(entries, p));
    }
}

/// Filtering twice is filtering by the conjunction.
pub proof fn lemma_filter_filter(
    entries: Seq<(u32, Seq<u8>)>,
    p: spec_fn(u32) -> bool,
    q: spec_fn(u32) -> bool,
)
    ensures
        spec_aux_filter(spec_aux_filter(entries, p), q) == spec_aux_filter(entries, pred_and(p, q)),
    decreases entries.len(),
{
    let pq = pred_and(p, q);
    if entries.len() == 0 {
    } else {
        lemma_filter_filter(entries.drop_first(), p, q);
        let rest = spec_aux_filter(entries.drop_first(), p);
        if p(entries.first().0) {
            let whole = seq![entries.first()] + rest;
            assert(whole.first() == entries.first());
            assert(whole.drop_first() =~= rest);
            if q(entries.first().0) {
                assert(spec_aux_filter(whole, q) =~= seq![entries.first()] + spec_aux_filter(
                    rest,
                    q,
                ));
                assert(spec_aux_filter(entries, pq) =~= seq![entries.first()] + spec_aux_filter(
                    entries.drop_first(),
                    pq,
                ));
            } else {
                assert(spec_aux_filter(whole, q) =~= spec_aux_filter(rest, q));
            }
        }
    }
}

} // verus!
