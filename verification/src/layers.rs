//! The trait catalog: one set of selectable traits per layer, loaded
//! from the image files a configuration's directories hold, plus the
//! weighted sampling and exclusion resolution that turn a catalog into
//! combinations.
//!
//! A file's base name carries the trait name, optionally followed by a
//! `#` delimiter and a decimal weight; without a suffix a fixed default
//! weight applies.  Each layer that declares a none-weight or exclusion
//! rules ends with one synthetic no-trait entry, the override target of
//! the exclusion pass.

use vstd::prelude::*;

use crate::config::{AppConfig, IfTrait, LayerConfig};
use crate::errors::EngineError;
use crate::fingerprint::label_views;

verus! {

/// Declares `image::DynamicImage`: the decoded raster a trait renders.
/// The engine stores it and tests only its presence; decoding and
/// compositing stay with the caller.
#[verifier::external_type_specification]
#[verifier::external_body]
pub struct ExDynamicImage(image::DynamicImage);

/// One selectable option of a layer.  `image` is `None` exactly for the
/// synthetic no-trait entries, so no real trait name can be mistaken
/// for "nothing rendered".
pub struct Trait {
    pub layer: String,
    pub name: String,
    pub weight: u32,
    pub image: Option<image::DynamicImage>,
}

impl Trait {
    /// Whether the trait renders anything.
    pub open spec fn visual(self) -> bool {
        self.image is Some
    }
}

/// The traits of one layer, in catalog order; the order is the index
/// space sampling draws from.
pub type TraitSet = Vec<Trait>;

/// The catalog of one configuration: one trait set per layer, and the
/// canvas dimensions taken from the first image seen.
pub struct Layers {
    pub trait_sets: Vec<TraitSet>,
    pub width: u32,
    pub height: u32,
}

impl Default for Layers {
    /// An empty catalog.
    fn default() -> (r: Self)
        ensures
            r.trait_sets@.len() == 0,
            r.width == 0,
            r.height == 0,
    {
        Layers { trait_sets: Vec::new(), width: 0, height: 0 }
    }
}

/// One catalog image file as the caller hands it over: the file's base
/// name without extension, the decoded image and its dimensions.
pub struct TraitFile {
    pub stem: String,
    pub width: u32,
    pub height: u32,
    pub image: image::DynamicImage,
}

/// The weight given to a trait file without a weight suffix.
pub const DEFAULT_WEIGHT: u32 = 50;

/// A base-ten digit.
pub open spec fn is_dec_digit(c: char) -> bool {
    48 <= c as int <= 57
}

/// The value of a digit string, most significant digit first.
pub open spec fn dec_digits_val(s: Seq<char>) -> int
    decreases s.len(),
{
    if s.len() == 0 {
        0
    } else {
        dec_digits_val(s.drop_last()) * 10 + (s.last() as int - 48)
    }
}

/// A non-empty, all-digit string.
pub open spec fn is_dec_string(s: Seq<char>) -> bool {
    s.len() > 0 && forall|i: int| 0 <= i < s.len() ==> is_dec_digit(#[trigger] s[i])
}

/// Whether a weight suffix is acceptable: digits only, value in range.
pub open spec fn weight_parses(s: Seq<char>) -> bool {
    is_dec_string(s) && dec_digits_val(s) <= u32::MAX
}

proof fn lemma_dec_val_nonneg(s: Seq<char>)
    requires
        forall|i: int| 0 <= i < s.len() ==> is_dec_digit(#[trigger] s[i]),
    ensures
        dec_digits_val(s) >= 0,
    decreases s.len(),
{
    if s.len() > 0 {
        assert(forall|i: int| 0 <= i < s.drop_last().len() ==> is_dec_digit(#[trigger] s.drop_last()[i]));
        lemma_dec_val_nonneg(s.drop_last());
    }
}

proof fn lemma_dec_val_mono(s: Seq<char>, i: int)
    requires
        0 <= i <= s.len(),
        forall|k: int| 0 <= k < s.len() ==> is_dec_digit(#[trigger] s[k]),
    ensures
        dec_digits_val(s.take(i)) <= dec_digits_val(s),
    decreases s.len() - i,
{
    if i < s.len() {
        let p = s.take(i);
        let q = s.take(i + 1);
        assert(q.drop_last() =~= p);
        assert(q.last() == s[i]);
        assert(forall|k: int| 0 <= k < p.len() ==> is_dec_digit(#[trigger] p[k]));
        lemma_dec_val_nonneg(p);
        assert(dec_digits_val(q) == dec_digits_val(p) * 10 + (s[i] as int - 48));
        assert(dec_digits_val(p) * 10 >= dec_digits_val(p));
        lemma_dec_val_mono(s, i + 1);
    } else {
        assert(s.take(i) =~= s);
    }
}

/// Parses a base-ten `u32`: accepts exactly the non-empty all-digit
/// strings whose value fits.
pub fn parse_weight(s: &str) -> (r: Option<u32>)
    ensures
        (r is Some) == weight_parses(s@),
        r matches Some(w) ==> w == dec_digits_val(s@),
{
    let n = s.unicode_len();
    if n == 0 {
        return None;
    }
    let mut i: usize = 0;
    let mut val: u32 = 0;
    while i < n
        invariant
            i <= n,
            n == s@.len(),
            n > 0,
            forall|k: int| 0 <= k < i ==> is_dec_digit(#[trigger] s@[k]),
            val == dec_digits_val(s@.take(i as int)),
        decreases n - i,
    {
        let c = s.get_char(i);
        let d = c as u32;
        if d < 48 || d > 57 {
            assert(!is_dec_string(s@));
            return None;
        }
        let wide: u64 = val as u64 * 10 + (d - 48) as u64;
        proof {
            assert(s@.take(i as int + 1).drop_last() =~= s@.take(i as int));
            assert(s@.take(i as int + 1).last() == s@[i as int]);
        }
        if wide > u32::MAX as u64 {
            proof {
                if weight_parses(s@) {
                    lemma_dec_val_mono(s@, i as int + 1);
                }
            }
            return None;
        }
        val = wide as u32;
        i += 1;
    }
    proof {
        assert(s@.take(i as int) =~= s@);
    }
    Some(val)
}

/// The index of the first `#` in a string, or its length if none occurs.
pub open spec fn first_delim(s: Seq<char>) -> int
    decreases s.len(),
{
    if s.len() == 0 {
        0
    } else if s[0] == '#' {
        0
    } else {
        1 + first_delim(s.drop_first())
    }
}

proof fn lemma_first_delim(s: Seq<char>)
    ensures
        0 <= first_delim(s) <= s.len(),
        forall|k: int| 0 <= k < first_delim(s) ==> s[k] != '#',
        first_delim(s) < s.len() ==> s[first_delim(s)] == '#',
    decreases s.len(),
{
    if s.len() > 0 && s[0] != '#' {
        lemma_first_delim(s.drop_first());
        assert forall|k: int| 0 <= k < first_delim(s) implies s[k] != '#' by {
            if k > 0 {
                assert(s[k] == s.drop_first()[k - 1]);
            }
        }
        if first_delim(s) < s.len() {
            assert(s[first_delim(s)] == s.drop_first()[first_delim(s) - 1]);
        }
    }
}

/// Whether a file stem declares a weight.
pub open spec fn has_weight(stem: Seq<char>) -> bool {
    first_delim(stem) < stem.len()
}

/// The trait name a file stem carries: everything before the first `#`,
/// or the whole stem without one.
pub open spec fn trait_name_of(stem: Seq<char>) -> Seq<char> {
    stem.take(first_delim(stem))
}

/// The weight suffix of a file stem: the characters between the first
/// `#` and the second one, or the end.
pub open spec fn weight_str_of(stem: Seq<char>) -> Seq<char> {
    let rest = stem.skip(first_delim(stem) + 1);
    rest.take(first_delim(rest))
}

fn find_delim(s: &str, from: usize) -> (r: usize)
    requires
        from <= s@.len(),
    ensures
        from <= r <= s@.len(),
        r - from == first_delim(s@.skip(from as int)),
{
    let n = s.unicode_len();
    let mut i: usize = from;
    while i < n
        invariant
            from <= i <= n,
            n == s@.len(),
            forall|k: int| from <= k < i ==> s@[k] != '#',
        decreases n - i,
    {
        if s.get_char(i) == '#' {
            proof {
                let rest = s@.skip(from as int);
                lemma_first_delim(rest);
                assert(rest[i - from as int] == '#');
                assert(forall|k: int| 0 <= k < i - from ==> rest[k] == s@[k + from]);
                if first_delim(rest) < i - from {
                    assert(rest[first_delim(rest)] != '#');
                    assert(false);
                }
                if first_delim(rest) > i - from {
                    assert(rest[i - from as int] != '#');
                    assert(false);
                }
            }
            return i;
        }
        i += 1;
    }
    proof {
        let rest = s@.skip(from as int);
        lemma_first_delim(rest);
        assert(forall|k: int| 0 <= k < rest.len() ==> rest[k] == s@[k + from]);
        if first_delim(rest) < rest.len() {
            assert(rest[first_delim(rest)] == '#');
            assert(false);
        }
    }
    n
}

/// Splits a file stem into its trait name and, when a `#` delimiter is
/// present, the weight suffix that follows it.
pub fn split_stem(stem: &str) -> (r: (String, Option<String>))
    ensures
        r.0@ == trait_name_of(stem@),
        (r.1 is Some) == has_weight(stem@),
        r.1 matches Some(w) ==> w@ == weight_str_of(stem@),
{
    let n = stem.unicode_len();
    proof {
        assert(stem@.skip(0) =~= stem@);
    }
    let d = find_delim(stem, 0);
    let name = stem.substring_char(0, d).to_owned();
    proof {
        assert(stem@.subrange(0, d as int) =~= stem@.take(first_delim(stem@)));
    }
    if d == n {
        (name, None)
    } else {
        let e = find_delim(stem, d + 1);
        let w = stem.substring_char(d + 1, e).to_owned();
        proof {
            let rest = stem@.skip(d as int + 1);
            assert(rest.take(first_delim(rest)) =~= stem@.subrange(d as int + 1, e as int));
        }
        (name, Some(w))
    }
}

/// What one catalog entry must look like: trait name, weight, and the
/// image carried (none for the synthetic no-trait entry).
pub type EntrySpec = (Seq<char>, int, Option<image::DynamicImage>);

/// The label a layer stamps on its traits: its display name when
/// declared, else its directory name.
pub open spec fn layer_label(cfg: LayerConfig) -> Seq<char> {
    match cfg.display_name {
        Option::Some(d) => d@,
        Option::None => cfg.name@,
    }
}

/// Whether a file stem is in the configuration's disabled set.
pub open spec fn stem_disabled(off: Option<Vec<String>>, stem: Seq<char>) -> bool {
    match off {
        Option::Some(v) => exists|i: int| 0 <= i < v@.len() && v@[i]@ == stem,
        Option::None => false,
    }
}

/// The weight a kept file contributes: its parsed suffix, or the
/// default.
pub open spec fn file_weight(stem: Seq<char>) -> int {
    if has_weight(stem) {
        dec_digits_val(weight_str_of(stem))
    } else {
        DEFAULT_WEIGHT as int
    }
}

/// Whether a kept file's weight suffix, if any, parses.
pub open spec fn file_weight_ok(stem: Seq<char>) -> bool {
    !has_weight(stem) || weight_parses(weight_str_of(stem))
}

/// What the first `k` files of a layer's listing contribute: one entry
/// per kept file, in listing order.
pub open spec fn file_entries(files: Seq<TraitFile>, off: Option<Vec<String>>, k: int) -> Seq<
    EntrySpec,
>
    decreases k,
{
    if k <= 0 {
        Seq::empty()
    } else {
        let prev = file_entries(files, off, k - 1);
        let f = files[k - 1];
        if stem_disabled(off, f.stem@) {
            prev
        } else {
            prev.push((trait_name_of(f.stem@), file_weight(f.stem@), Option::Some(f.image)))
        }
    }
}

/// A layer's full entry list: its kept files, then the synthetic
/// no-trait entry when the configuration declares a none-weight, or a
/// never-drawn one when it only declares exclusion rules.
pub open spec fn layer_entries(
    cfg: LayerConfig,
    files: Seq<TraitFile>,
    off: Option<Vec<String>>,
) -> Seq<EntrySpec> {
    let base = file_entries(files, off, files.len() as int);
    match cfg.none {
        Option::Some(w) => base.push(("None"@, w as int, Option::None)),
        Option::None => if cfg.exclude_if_traits is Some {
            base.push(("None"@, 0, Option::None))
        } else {
            base
        },
    }
}

/// Whether an executable trait realises a specified entry under a
/// layer label.
pub open spec fn trait_matches(t: Trait, e: EntrySpec, label: Seq<char>) -> bool {
    t.layer@ == label && t.name@ == e.0 && t.weight as int == e.1 && t.image == e.2
}

/// Whether a trait set realises a specified entry list.
pub open spec fn set_matches(ts: Seq<Trait>, entries: Seq<EntrySpec>, label: Seq<char>) -> bool {
    ts.len() == entries.len() && forall|j: int|
        0 <= j < ts.len() ==> trait_matches(#[trigger] ts[j], entries[j], label)
}

/// The kept trait names of one layer's first `k` files, in order.
pub open spec fn layer_names(files: Seq<TraitFile>, off: Option<Vec<String>>, k: int) -> Seq<
    Seq<char>,
> {
    file_entries(files, off, k).map_values(|e: EntrySpec| e.0)
}

/// Every kept trait name of a catalog, in scan order.
pub open spec fn kept_names(listings: Seq<Vec<TraitFile>>, off: Option<Vec<String>>) -> Seq<
    Seq<char>,
> {
    listings.map_values(|files: Vec<TraitFile>| layer_names(files@, off, files@.len() as int))
        .flatten()
}

/// All kept weight suffixes of a catalog parse.
pub open spec fn all_weights_ok(listings: Seq<Vec<TraitFile>>, off: Option<Vec<String>>) -> bool {
    forall|i: int, j: int|
        #![trigger listings[i]@[j]]
        0 <= i < listings.len() && 0 <= j < listings[i]@.len() && !stem_disabled(
            off,
            listings[i]@[j].stem@,
        ) ==> file_weight_ok(listings[i]@[j].stem@)
}

/// No layer of the catalog ends with an empty entry list.
pub open spec fn no_empty_layer(
    cfgs: Seq<LayerConfig>,
    listings: Seq<Vec<TraitFile>>,
    off: Option<Vec<String>>,
) -> bool {
    forall|i: int|
        0 <= i < listings.len() ==> layer_entries(#[trigger] cfgs[i], listings[i]@, off).len() > 0
}

/// The dimensions of the first kept file with any extent among a
/// layer's first `k` files.
pub open spec fn layer_first_dims(files: Seq<TraitFile>, off: Option<Vec<String>>, k: int) -> Option<
    (u32, u32),
>
    decreases k,
{
    if k <= 0 {
        Option::None
    } else {
        let prev = layer_first_dims(files, off, k - 1);
        if prev is Some {
            prev
        } else {
            let f = files[k - 1];
            if !stem_disabled(off, f.stem@) && (f.width != 0 || f.height != 0) {
                Option::Some((f.width, f.height))
            } else {
                Option::None
            }
        }
    }
}

/// The dimensions of the first kept file with any extent among the
/// catalog's first `i` layers.
pub open spec fn catalog_first_dims(
    listings: Seq<Vec<TraitFile>>,
    off: Option<Vec<String>>,
    i: int,
) -> Option<(u32, u32)>
    decreases i,
{
    if i <= 0 {
        Option::None
    } else {
        let prev = catalog_first_dims(listings, off, i - 1);
        if prev is Some {
            prev
        } else {
            layer_first_dims(listings[i - 1]@, off, listings[i - 1]@.len() as int)
        }
    }
}

/// Canvas dimensions after seeing a candidate: absorbed only while both
/// extents are still zero.
pub open spec fn apply_dims(cur: (u32, u32), d: Option<(u32, u32)>) -> (u32, u32) {
    if cur.0 == 0 && cur.1 == 0 {
        match d {
            Option::Some(dd) => dd,
            Option::None => cur,
        }
    } else {
        cur
    }
}

proof fn lemma_flatten_split<A>(s: Seq<Seq<A>>, li: int)
    requires
        0 <= li <= s.len(),
    ensures
        s.flatten() =~= s.take(li).flatten() + s.skip(li).flatten(),
    decreases li,
{
    if li == 0 {
        assert(s.take(0) =~= Seq::<Seq<A>>::empty());
        assert(Seq::<Seq<A>>::empty().flatten() =~= Seq::<A>::empty());
        assert(s.skip(0) =~= s);
    } else {
        lemma_flatten_split(s, li - 1);
        assert(s.take(li) =~= s.take(li - 1).push(s[li - 1]));
        s.take(li - 1).lemma_flatten_push(s[li - 1]);
        let tail = s.skip(li - 1);
        assert(tail.len() > 0);
        assert(tail.first() == s[li - 1]);
        assert(tail.drop_first() =~= s.skip(li));
        assert(tail.flatten() == tail.first() + tail.drop_first().flatten());
    }
}

proof fn lemma_flatten_unfold<A>(s: Seq<Seq<A>>, li: int)
    requires
        0 <= li < s.len(),
    ensures
        s.skip(li).flatten() =~= s[li] + s.skip(li + 1).flatten(),
{
    let tail = s.skip(li);
    assert(tail.len() > 0);
    assert(tail.first() == s[li]);
    assert(tail.drop_first() =~= s.skip(li + 1));
    assert(tail.flatten() == tail.first() + tail.drop_first().flatten());
}

proof fn lemma_file_entries_prefix(files: Seq<TraitFile>, off: Option<Vec<String>>, k1: int, k2: int)
    requires
        0 <= k1 <= k2,
    ensures
        file_entries(files, off, k1).len() <= file_entries(files, off, k2).len(),
        forall|j: int|
            0 <= j < file_entries(files, off, k1).len() ==> file_entries(files, off, k2)[j]
                == #[trigger] file_entries(files, off, k1)[j],
    decreases k2 - k1,
{
    if k1 < k2 {
        lemma_file_entries_prefix(files, off, k1, k2 - 1);
    }
}

proof fn lemma_lfd_nonzero(files: Seq<TraitFile>, off: Option<Vec<String>>, k: int)
    ensures
        layer_first_dims(files, off, k) matches Option::Some(d) ==> (d.0 != 0 || d.1 != 0),
    decreases k,
{
    if k > 0 {
        lemma_lfd_nonzero(files, off, k - 1);
    }
}

proof fn lemma_cfd_nonzero(listings: Seq<Vec<TraitFile>>, off: Option<Vec<String>>, i: int)
    ensures
        catalog_first_dims(listings, off, i) matches Option::Some(d) ==> (d.0 != 0 || d.1 != 0),
    decreases i,
{
    if i > 0 {
        lemma_cfd_nonzero(listings, off, i - 1);
        lemma_lfd_nonzero(listings[i - 1]@, off, listings[i - 1]@.len() as int);
    }
}

proof fn lemma_dup_in_kept(
    orig: Seq<Vec<TraitFile>>,
    off: Option<Vec<String>>,
    nmap: Seq<Seq<Seq<char>>>,
    li: int,
    fi: int,
    nm: Seq<char>,
    a: int,
)
    requires
        0 <= li < orig.len(),
        nmap.len() == orig.len(),
        forall|i: int|
            0 <= i < orig.len() ==> nmap[i] == layer_names(
                #[trigger] orig[i]@,
                off,
                orig[i]@.len() as int,
            ),
        nmap.flatten() == kept_names(orig, off),
        0 <= fi < orig[li]@.len(),
        !stem_disabled(off, orig[li]@[fi].stem@),
        nm == trait_name_of(orig[li]@[fi].stem@),
        0 <= a < nmap.take(li).flatten().len() + layer_names(orig[li]@, off, fi).len(),
        (nmap.take(li).flatten() + layer_names(orig[li]@, off, fi))[a] == nm,
    ensures
        exists|x: int, y: int|
            0 <= x < y < kept_names(orig, off).len() && kept_names(orig, off)[x] == kept_names(
                orig,
                off,
            )[y] && kept_names(orig, off)[y] == nm,
{
    let cur = orig[li]@;
    let m = cur.len() as int;
    let pre = nmap.take(li).flatten();
    let part = layer_names(cur, off, fi);
    let part1 = layer_names(cur, off, fi + 1);
    assert(file_entries(cur, off, fi + 1) =~= file_entries(cur, off, fi).push(
        (trait_name_of(cur[fi].stem@), file_weight(cur[fi].stem@), Option::Some(cur[fi].image)),
    ));
    assert(part1 =~= part.push(nm));
    lemma_flatten_split(nmap, li);
    lemma_flatten_unfold(nmap, li);
    lemma_file_entries_prefix(cur, off, fi + 1, m);
    let full = kept_names(orig, off);
    let rest = nmap.skip(li + 1).flatten();
    assert(full =~= pre + (nmap[li] + rest));
    assert(part1.len() <= nmap[li].len());
    assert forall|j: int| 0 <= j < part1.len() implies nmap[li][j] == part1[j] by {
        assert(nmap[li][j] == file_entries(cur, off, m)[j].0);
        assert(part1[j] == file_entries(cur, off, fi + 1)[j].0);
    }
    let y = pre.len() + part1.len() - 1;
    assert(full.len() >= pre.len() + nmap[li].len());
    assert(part1.len() == part.len() + 1);
    assert(part1[part.len() as int] == nm);
    assert(nmap[li][part1.len() - 1] == part1[part1.len() - 1]);
    assert(full[y] == nmap[li][part1.len() - 1]);
    assert(full[y] == nm);
    if a < pre.len() {
        assert(full[a] == pre[a]);
        assert(full[a] == nm);
    } else {
        assert((pre + part)[a] == part[a - pre.len()]);
        assert(part[a - pre.len()] == part1[a - pre.len()]);
        assert(full[a] == nmap[li][a - pre.len()]);
        assert(full[a] == nm);
    }
    assert(a < y);
    assert(0 <= a < y < full.len() && full[a] == full[y] && full[y] == nm);
}

impl Layers {
    /// Builds the catalog from per-layer file listings, one listing per
    /// configured layer, in layer order.  On success the catalog holds,
    /// per layer, one trait per kept file in listing order plus the
    /// synthetic no-trait entry the layer's configuration calls for,
    /// and canvas dimensions absorbed from the first kept image with
    /// any extent.  Fails, leaving the catalog untouched, with
    /// `UnparsableWeight` when a kept weight suffix does not parse,
    /// `DuplicateTraitName` when two kept files anywhere in the catalog
    /// resolve to the same trait name, and `EmptyLayer` when a layer
    /// ends with no entries at all.
    #[verifier::loop_isolation(false)]
    pub fn load(&mut self, config: &AppConfig, listings: Vec<Vec<TraitFile>>) -> (r: Result<
        (),
        EngineError,
    >)
        requires
            listings@.len() == config.layers@.len(),
        ensures
            (r is Ok) <==> (all_weights_ok(listings@, config.off_traits) && kept_names(
                listings@,
                config.off_traits,
            ).no_duplicates() && no_empty_layer(config.layers@, listings@, config.off_traits)),
            r is Ok ==> final(self).trait_sets@.len() == listings@.len(),
            r is Ok ==> forall|i: int|
                0 <= i < listings@.len() ==> set_matches(
                    #[trigger] final(self).trait_sets@[i]@,
                    layer_entries(config.layers@[i], listings@[i]@, config.off_traits),
                    layer_label(config.layers@[i]),
                ),
            r is Ok ==> (final(self).width, final(self).height) == apply_dims(
                (old(self).width, old(self).height),
                catalog_first_dims(listings@, config.off_traits, listings@.len() as int),
            ),
            r is Err ==> *final(self) == *old(self),
            r matches Err(e) ==> (e matches EngineError::UnparsableWeight(..) || e matches
                EngineError::DuplicateTraitName(..) || e matches EngineError::EmptyLayer(..)),
            r matches Err(EngineError::UnparsableWeight(w)) ==> exists|i: int, j: int|
                #![trigger listings@[i]@[j]]
                0 <= i < listings@.len() && 0 <= j < listings@[i]@.len() && !stem_disabled(
                    config.off_traits,
                    listings@[i]@[j].stem@,
                ) && has_weight(listings@[i]@[j].stem@) && !weight_parses(
                    weight_str_of(listings@[i]@[j].stem@),
                ) && w@ == weight_str_of(listings@[i]@[j].stem@),
            r matches Err(EngineError::DuplicateTraitName(nm)) ==> exists|x: int, y: int|
                0 <= x < y < kept_names(listings@, config.off_traits).len() && kept_names(
                    listings@,
                    config.off_traits,
                )[x] == kept_names(listings@, config.off_traits)[y] && kept_names(
                    listings@,
                    config.off_traits,
                )[y] == nm@,
            r matches Err(EngineError::EmptyLayer(nm)) ==> exists|i: int|
                0 <= i < listings@.len() && layer_entries(
                    #[trigger] config.layers@[i],
                    listings@[i]@,
                    config.off_traits,
                ).len() == 0 && nm@ == config.layers@[i].name@,
    {
        let ghost off = config.off_traits;
        let ghost orig = listings@;
        let ghost n = orig.len();
        let ghost nmap = orig.map_values(
            |files: Vec<TraitFile>| layer_names(files@, off, files@.len() as int),
        );
        let ghost w0 = self.width;
        let ghost h0 = self.height;
        proof {
            assert(nmap.flatten() == kept_names(orig, off));
            assert(nmap.len() == n);
            assert(forall|i: int|
                0 <= i < n ==> nmap[i] == layer_names(#[trigger] orig[i]@, off, orig[i]@.len() as int));
        }
        let mut work = listings;
        let mut new_sets: Vec<TraitSet> = Vec::new();
        let mut seen: Vec<String> = Vec::new();
        let mut w = self.width;
        let mut h = self.height;
        let mut li: usize = 0;
        proof {
            assert(work@ =~= orig.skip(0));
            assert(nmap.take(0) =~= Seq::<Seq<Seq<char>>>::empty());
            assert(Seq::<Seq<Seq<char>>>::empty().flatten() =~= Seq::<Seq<char>>::empty());
            assert(label_views(seen@) =~= Seq::<Seq<char>>::empty());
        }
        while li < config.layers.len()
            invariant
                n == orig.len(),
                n == config.layers@.len(),
                off == config.off_traits,
                nmap.len() == n,
                forall|i: int|
                    0 <= i < n ==> nmap[i] == layer_names(
                        #[trigger] orig[i]@,
                        off,
                        orig[i]@.len() as int,
                    ),
                nmap.flatten() == kept_names(orig, off),
                li <= n,
                work@ =~= orig.skip(li as int),
                new_sets@.len() == li,
                forall|i: int|
                    0 <= i < li ==> set_matches(
                        #[trigger] new_sets@[i]@,
                        layer_entries(config.layers@[i], orig[i]@, off),
                        layer_label(config.layers@[i]),
                    ),
                forall|i: int|
                    0 <= i < li ==> layer_entries(#[trigger] config.layers@[i], orig[i]@, off).len()
                        > 0,
                forall|i2: int, j2: int|
                    #![trigger orig[i2]@[j2]]
                    0 <= i2 < li && 0 <= j2 < orig[i2]@.len() && !stem_disabled(
                        off,
                        orig[i2]@[j2].stem@,
                    ) ==> file_weight_ok(orig[i2]@[j2].stem@),
                label_views(seen@) =~= nmap.take(li as int).flatten(),
                label_views(seen@).no_duplicates(),
                (w, h) == apply_dims((w0, h0), catalog_first_dims(orig, off, li as int)),
                w0 == old(self).width,
                h0 == old(self).height,
            decreases n - li,
        {
            let mut files = work.remove(0);
            let ghost cur = orig[li as int]@;
            proof {
                assert(work@ =~= orig.skip(li as int + 1));
                assert(files@ =~= cur);
            }
            let cfg = &config.layers[li];
            let label: String = match &cfg.display_name {
                Option::Some(d) => d.clone(),
                Option::None => cfg.name.clone(),
            };
            proof {
                assert(label@ == layer_label(config.layers@[li as int]));
            }
            let mut trait_set: Vec<Trait> = Vec::new();
            let mut fi: usize = 0;
            let ghost seen0 = label_views(seen@);
            let ghost m = cur.len();
            proof {
                assert(file_entries(cur, off, 0) =~= Seq::<EntrySpec>::empty());
                assert(layer_names(cur, off, 0) =~= Seq::<Seq<char>>::empty());
                assert(label_views(seen@) =~= seen0 + layer_names(cur, off, 0));
                assert(set_matches(
                    trait_set@,
                    file_entries(cur, off, 0),
                    layer_label(config.layers@[li as int]),
                ));
            }
            let total = files.len();
            while fi < total
                invariant
                    fi <= total,
                    total == m,
                    m == cur.len(),
                    li < n,
                    n == orig.len(),
                    n == config.layers@.len(),
                    off == config.off_traits,
                    cur == orig[li as int]@,
                    nmap.len() == n,
                    forall|i: int|
                        0 <= i < n ==> nmap[i] == layer_names(
                            #[trigger] orig[i]@,
                            off,
                            orig[i]@.len() as int,
                        ),
                    nmap.flatten() == kept_names(orig, off),
                    files@ =~= cur.skip(fi as int),
                    label@ == layer_label(config.layers@[li as int]),
                    set_matches(
                        trait_set@,
                        file_entries(cur, off, fi as int),
                        layer_label(config.layers@[li as int]),
                    ),
                    seen0 == nmap.take(li as int).flatten(),
                    label_views(seen@) =~= seen0 + layer_names(cur, off, fi as int),
                    label_views(seen@).no_duplicates(),
                    forall|j2: int|
                        0 <= j2 < fi && !stem_disabled(off, cur[j2].stem@) ==> file_weight_ok(
                            #[trigger] cur[j2].stem@,
                        ),
                    forall|i2: int, j2: int|
                        #![trigger orig[i2]@[j2]]
                        0 <= i2 < li && 0 <= j2 < orig[i2]@.len() && !stem_disabled(
                            off,
                            orig[i2]@[j2].stem@,
                        ) ==> file_weight_ok(orig[i2]@[j2].stem@),
                    (w, h) == apply_dims(
                        apply_dims((w0, h0), catalog_first_dims(orig, off, li as int)),
                        layer_first_dims(cur, off, fi as int),
                    ),
                    w0 == old(self).width,
                    h0 == old(self).height,
                decreases total - fi,
            {
                let f = files.remove(0);
                proof {
                    assert(f == cur[fi as int]);
                    assert(files@ =~= cur.skip(fi as int + 1));
                }
                let disabled = match &config.off_traits {
                    Option::Some(v) => crate::config::contains_string(v, &f.stem),
                    Option::None => false,
                };
                proof {
                    assert(disabled == stem_disabled(off, f.stem@));
                }
                if disabled {
                    proof {
                        assert(file_entries(cur, off, fi as int + 1) =~= file_entries(
                            cur,
                            off,
                            fi as int,
                        ));
                        assert(layer_names(cur, off, fi as int + 1) =~= layer_names(
                            cur,
                            off,
                            fi as int,
                        ));
                        assert(layer_first_dims(cur, off, fi as int + 1) == layer_first_dims(
                            cur,
                            off,
                            fi as int,
                        ));
                    }
                    fi += 1;
                    continue;
                }
                if w == 0 && h == 0 {
                    w = f.width;
                    h = f.height;
                }
                proof {
                    lemma_lfd_nonzero(cur, off, fi as int);
                    lemma_cfd_nonzero(orig, off, li as int);
                    assert((w, h) == apply_dims(
                        apply_dims((w0, h0), catalog_first_dims(orig, off, li as int)),
                        layer_first_dims(cur, off, fi as int + 1),
                    ));
                }
                let (name, wopt) = split_stem(f.stem.as_str());
                let weight: u32 = match wopt {
                    Option::Some(ws) => match parse_weight(ws.as_str()) {
                        Option::Some(x) => x,
                        Option::None => {
                            proof {
                                assert(orig[li as int]@[fi as int] == f);
                                assert(!all_weights_ok(orig, off));
                            }
                            return Err(EngineError::UnparsableWeight(ws));
                        },
                    },
                    Option::None => DEFAULT_WEIGHT,
                };
                proof {
                    assert(weight as int == file_weight(f.stem@));
                }
                if crate::config::contains_string(&seen, &name) {
                    proof {
                        let sv = label_views(seen@);
                        let a = choose|a: int| 0 <= a < seen@.len() && seen@[a]@ == name@;
                        assert(sv[a] == name@);
                        lemma_dup_in_kept(orig, off, nmap, li as int, fi as int, name@, a);
                    }
                    return Err(EngineError::DuplicateTraitName(name));
                }
                proof {
                    assert(forall|k: int| 0 <= k < seen@.len() ==> #[trigger] seen@[k]@ != name@);
                }
                seen.push(name.clone());
                trait_set.push(
                    Trait { layer: label.clone(), name, weight, image: Option::Some(f.image) },
                );
                proof {
                    let e: EntrySpec = (
                        trait_name_of(cur[fi as int].stem@),
                        file_weight(cur[fi as int].stem@),
                        Option::Some(cur[fi as int].image),
                    );
                    assert(file_entries(cur, off, fi as int + 1) =~= file_entries(
                        cur,
                        off,
                        fi as int,
                    ).push(e));
                    assert(layer_names(cur, off, fi as int + 1) =~= layer_names(
                        cur,
                        off,
                        fi as int,
                    ).push(name@));
                    assert(label_views(seen@) =~= (seen0 + layer_names(cur, off, fi as int)).push(
                        name@,
                    ));
                    assert(label_views(seen@) =~= seen0 + layer_names(cur, off, fi as int + 1));
                    assert(set_matches(
                        trait_set@,
                        file_entries(cur, off, fi as int + 1),
                        layer_label(config.layers@[li as int]),
                    ));
                }
                fi += 1;
            }
            let ghost base_entries = file_entries(cur, off, m as int);
            match cfg.none {
                Option::Some(nw) => {
                    trait_set.push(
                        Trait {
                            layer: label.clone(),
                            name: "None".to_owned(),
                            weight: nw,
                            image: Option::None,
                        },
                    );
                },
                Option::None => {
                    if cfg.exclude_if_traits.is_some() {
                        trait_set.push(
                            Trait {
                                layer: label.clone(),
                                name: "None".to_owned(),
                                weight: 0,
                                image: Option::None,
                            },
                        );
                    }
                },
            }
            proof {
                assert(set_matches(
                    trait_set@,
                    layer_entries(config.layers@[li as int], cur, off),
                    layer_label(config.layers@[li as int]),
                ));
            }
            if trait_set.len() == 0 {
                proof {
                    assert(layer_entries(config.layers@[li as int], orig[li as int]@, off).len()
                        == 0);
                    assert(!no_empty_layer(config.layers@, orig, off));
                }
                return Err(EngineError::EmptyLayer(cfg.name.clone()));
            }
            new_sets.push(trait_set);
            proof {
                assert(nmap.take(li as int + 1) =~= nmap.take(li as int).push(nmap[li as int]));
                nmap.take(li as int).lemma_flatten_push(nmap[li as int]);
                assert(label_views(seen@) =~= nmap.take(li as int + 1).flatten());
                lemma_cfd_nonzero(orig, off, li as int);
                lemma_lfd_nonzero(cur, off, m as int);
                assert((w, h) == apply_dims(
                    (w0, h0),
                    catalog_first_dims(orig, off, li as int + 1),
                ));
            }
            li += 1;
        }
        proof {
            assert(nmap.take(li as int) =~= nmap);
            assert(label_views(seen@) =~= kept_names(orig, off));
            assert(kept_names(orig, off).no_duplicates());
            assert(all_weights_ok(orig, off));
            assert(no_empty_layer(config.layers@, orig, off));
        }
        self.trait_sets = new_sets;
        self.width = w;
        self.height = h;
        Ok(())
    }
}

/// The sum of the weights of a trait set's first `k` entries.
pub open spec fn weight_sum(ts: Seq<Trait>, k: int) -> int
    decreases k,
{
    if k <= 0 {
        0
    } else {
        weight_sum(ts, k - 1) + ts[k - 1].weight
    }
}

proof fn lemma_weight_sum_nonneg(ts: Seq<Trait>, k: int)
    ensures
        weight_sum(ts, k) >= 0,
    decreases k,
{
    if k > 0 {
        lemma_weight_sum_nonneg(ts, k - 1);
    }
}

/// Relies on `rand::random_range` over `0..total` (the thread-local
/// generator): a value below `total`; which one depends on the
/// generator's state, so nothing more is promised.
#[verifier::external_body]
fn draw_below(total: u64) -> (r: u64)
    requires
        total > 0,
    ensures
        r < total,
{
    rand::random_range(0u64..total)
}

/// Selects the trait a drawn number lands on: walk the set in order
/// subtracting weights; the first entry that takes the running value
/// below zero is selected, so the selected entry owns the weight span
/// covering `n`.  A set whose total weight is zero selects its last
/// entry, the documented fallback.
pub fn select_trait(ts: &Vec<Trait>, n: u64) -> (i: usize)
    requires
        ts@.len() > 0,
        weight_sum(ts@, ts@.len() as int) > 0 ==> n < weight_sum(ts@, ts@.len() as int),
    ensures
        i < ts@.len(),
        weight_sum(ts@, ts@.len() as int) > 0 ==> weight_sum(ts@, i as int) <= n
            && n < weight_sum(ts@, i as int + 1),
        weight_sum(ts@, ts@.len() as int) > 0 ==> ts@[i as int].weight > 0,
        weight_sum(ts@, ts@.len() as int) == 0 ==> i as int == ts@.len() - 1,
{
    let mut i: usize = 0;
    let mut rem: u64 = n;
    while i < ts.len()
        invariant
            i <= ts@.len(),
            weight_sum(ts@, i as int) >= 0,
            weight_sum(ts@, i as int) <= n,
            rem as int == n - weight_sum(ts@, i as int),
            weight_sum(ts@, ts@.len() as int) > 0 ==> n < weight_sum(ts@, ts@.len() as int),
        decreases ts@.len() - i,
    {
        let wt64 = ts[i].weight as u64;
        if rem < wt64 {
            proof {
                assert(weight_sum(ts@, i as int + 1) == weight_sum(ts@, i as int)
                    + ts@[i as int].weight);
                assert(ts@[i as int].weight > 0);
                if weight_sum(ts@, ts@.len() as int) == 0 {
                    lemma_weight_sum_nonneg(ts@, i as int);
                    lemma_dec_weight_prefix(ts@, i as int + 1, ts@.len() as int);
                    assert(false);
                }
            }
            return i;
        }
        proof {
            assert(weight_sum(ts@, i as int + 1) == weight_sum(ts@, i as int)
                + ts@[i as int].weight);
        }
        rem = rem - wt64;
        i += 1;
    }
    proof {
        if weight_sum(ts@, ts@.len() as int) > 0 {
            assert(false);
        }
    }
    ts.len() - 1
}

proof fn lemma_dec_weight_prefix(ts: Seq<Trait>, k1: int, k2: int)
    requires
        0 <= k1 <= k2,
    ensures
        weight_sum(ts, k1) <= weight_sum(ts, k2),
    decreases k2 - k1,
{
    if k1 < k2 {
        lemma_dec_weight_prefix(ts, k1, k2 - 1);
    }
}

/// Whether one exclusion predicate matches a resolved trait.  An empty
/// trait list asks only that the named layer rendered something; an
/// empty layer name matches the trait name on any layer, visual traits
/// only; with both given, layer and name must match.
pub open spec fn if_trait_matches(rule: IfTrait, t: Trait) -> bool {
    if rule.traits@.len() == 0 {
        t.layer@ == rule.layer@ && t.visual()
    } else if rule.layer@.len() == 0 {
        (exists|k: int| 0 <= k < rule.traits@.len() && rule.traits@[k]@ == t.name@) && t.visual()
    } else {
        t.layer@ == rule.layer@ && (exists|k: int|
            0 <= k < rule.traits@.len() && rule.traits@[k]@ == t.name@)
    }
}

/// Whether layer `k`'s exclusion rules force it to its no-trait entry:
/// some rule of its configuration matches the drawn trait of some other
/// layer.
pub open spec fn excluded_spec(
    tsets: Seq<Vec<Trait>>,
    cfgs: Seq<LayerConfig>,
    picks: Seq<usize>,
    k: int,
) -> bool {
    match cfgs[k].exclude_if_traits {
        Option::Some(rules) => exists|r: int, i: int|
            0 <= r < rules@.len() && 0 <= i < tsets.len() && i != k && if_trait_matches(
                rules@[r],
                tsets[i]@[picks[i] as int],
            ),
        Option::None => false,
    }
}

/// A layer's index after the exclusion pass: overridden to the last
/// (no-trait) entry when its rules match, the drawn index otherwise.
/// Every layer is judged against the same drawn combination, so an
/// override can never trigger another layer's rule in the same draw.
pub open spec fn resolved_pick(
    tsets: Seq<Vec<Trait>>,
    cfgs: Seq<LayerConfig>,
    picks: Seq<usize>,
    k: int,
) -> int {
    if excluded_spec(tsets, cfgs, picks, k) {
        tsets[k]@.len() - 1
    } else {
        picks[k] as int
    }
}

/// Exclusion correctness for layer-only rules: when layer `k` owns a
/// rule naming a layer and no traits, and the drawn trait of that layer
/// on any other position is visual, the exclusion pass forces layer `k`
/// to its no-trait entry.
pub proof fn lemma_exclusion_correct(
    tsets: Seq<Vec<Trait>>,
    cfgs: Seq<LayerConfig>,
    picks: Seq<usize>,
    k: int,
    r: int,
    i: int,
)
    requires
        0 <= k < tsets.len(),
        cfgs.len() == tsets.len(),
        picks.len() == tsets.len(),
        0 <= i < tsets.len() && i != k,
        cfgs[k].exclude_if_traits matches Option::Some(rules) && 0 <= r < rules@.len()
            && rules@[r].traits@.len() == 0 && tsets[i]@[picks[i] as int].layer@
            == rules@[r].layer@ && tsets[i]@[picks[i] as int].visual(),
    ensures
        resolved_pick(tsets, cfgs, picks, k) == tsets[k]@.len() - 1,
{
    let rules = cfgs[k].exclude_if_traits.unwrap();
    assert(if_trait_matches(rules@[r], tsets[i]@[picks[i] as int]));
    assert(excluded_spec(tsets, cfgs, picks, k));
}

fn eval_if_trait(rule: &IfTrait, t: &Trait) -> (r: bool)
    ensures
        r == if_trait_matches(*rule, *t),
{
    if rule.traits.len() == 0 {
        t.layer.eq(&rule.layer) && t.image.is_some()
    } else if rule.layer.as_str().is_empty() {
        crate::config::contains_string(&rule.traits, &t.name) && t.image.is_some()
    } else {
        t.layer.eq(&rule.layer) && crate::config::contains_string(&rule.traits, &t.name)
    }
}

impl Layers {
    #[verifier::loop_isolation(false)]
    fn layer_excluded(&self, layer_cfgs: &[LayerConfig], picks: &Vec<usize>, k: usize) -> (r: bool)
        requires
            layer_cfgs@.len() == self.trait_sets@.len(),
            picks@.len() == self.trait_sets@.len(),
            k < self.trait_sets@.len(),
            forall|i: int|
                0 <= i < picks@.len() ==> (#[trigger] picks@[i]) < self.trait_sets@[i]@.len(),
        ensures
            r == excluded_spec(self.trait_sets@, layer_cfgs@, picks@, k as int),
    {
        let tsets = &self.trait_sets;
        match &layer_cfgs[k].exclude_if_traits {
            Option::None => false,
            Option::Some(rules) => {
                let mut ri: usize = 0;
                while ri < rules.len()
                    invariant
                        ri <= rules@.len(),
                        layer_cfgs@[k as int].exclude_if_traits matches Option::Some(rr) && rr
                            == *rules,
                        layer_cfgs@.len() == self.trait_sets@.len(),
                        picks@.len() == self.trait_sets@.len(),
                        k < self.trait_sets@.len(),
                        tsets == &self.trait_sets,
                        forall|i: int|
                            0 <= i < picks@.len() ==> (#[trigger] picks@[i])
                                < self.trait_sets@[i]@.len(),
                        forall|r2: int, i: int|
                            0 <= r2 < ri && 0 <= i < self.trait_sets@.len() && i != k
                                ==> !if_trait_matches(
                                #[trigger] rules@[r2],
                                #[trigger] self.trait_sets@[i]@[picks@[i] as int],
                            ),
                    decreases rules@.len() - ri,
                {
                    let mut i: usize = 0;
                    while i < tsets.len()
                        invariant
                            i <= self.trait_sets@.len(),
                            ri < rules@.len(),
                            layer_cfgs@.len() == self.trait_sets@.len(),
                            picks@.len() == self.trait_sets@.len(),
                            k < self.trait_sets@.len(),
                            tsets == &self.trait_sets,
                            forall|i2: int|
                                0 <= i2 < picks@.len() ==> (#[trigger] picks@[i2])
                                    < self.trait_sets@[i2]@.len(),
                            forall|i2: int|
                                0 <= i2 < i && i2 != k ==> !if_trait_matches(
                                    rules@[ri as int],
                                    #[trigger] self.trait_sets@[i2]@[picks@[i2] as int],
                                ),
                        decreases self.trait_sets@.len() - i,
                    {
                        if i != k {
                            let t = &tsets[i][picks[i]];
                            if eval_if_trait(&rules[ri], t) {
                                proof {
                                    let rr = layer_cfgs@[k as int].exclude_if_traits.unwrap();
                                    assert(rr@[ri as int] == rules@[ri as int]);
                                    assert(if_trait_matches(
                                        rr@[ri as int],
                                        self.trait_sets@[i as int]@[picks@[i as int] as int],
                                    ));
                                }
                                return true;
                            }
                        }
                        i += 1;
                    }
                    ri += 1;
                }
                false
            },
        }
    }

    /// Runs the exclusion pass over a drawn combination: every layer
    /// whose rules match another layer's drawn trait is overridden to
    /// its last (catalog's no-trait) entry.  All layers are judged
    /// against the same drawn combination, never against overrides.
    pub fn apply_excludes(&self, layer_cfgs: &[LayerConfig], picks: &Vec<usize>) -> (r: Vec<usize>)
        requires
            layer_cfgs@.len() == self.trait_sets@.len(),
            picks@.len() == self.trait_sets@.len(),
            forall|i: int|
                0 <= i < picks@.len() ==> (#[trigger] picks@[i]) < self.trait_sets@[i]@.len(),
        ensures
            r@.len() == picks@.len(),
            forall|k: int|
                0 <= k < r@.len() ==> (#[trigger] r@[k]) as int == resolved_pick(
                    self.trait_sets@,
                    layer_cfgs@,
                    picks@,
                    k,
                ),
            forall|k: int| 0 <= k < r@.len() ==> (#[trigger] r@[k]) < self.trait_sets@[k]@.len(),
    {
        let mut out: Vec<usize> = Vec::new();
        let mut k: usize = 0;
        while k < picks.len()
            invariant
                k <= picks@.len(),
                layer_cfgs@.len() == self.trait_sets@.len(),
                picks@.len() == self.trait_sets@.len(),
                forall|i: int|
                    0 <= i < picks@.len() ==> (#[trigger] picks@[i]) < self.trait_sets@[i]@.len(),
                out@.len() == k,
                forall|k2: int|
                    0 <= k2 < k ==> (#[trigger] out@[k2]) as int == resolved_pick(
                        self.trait_sets@,
                        layer_cfgs@,
                        picks@,
                        k2,
                    ),
                forall|k2: int|
                    0 <= k2 < k ==> (#[trigger] out@[k2]) < self.trait_sets@[k2]@.len(),
            decreases picks@.len() - k,
        {
            if self.layer_excluded(layer_cfgs, picks, k) {
                proof {
                    assert(picks@[k as int] < self.trait_sets@[k as int]@.len());
                }
                let last = self.trait_sets[k].len() - 1;
                out.push(last);
            } else {
                out.push(picks[k]);
            }
            k += 1;
        }
        out
    }
}

/// The label of a resolved visible trait: the layer's configured
/// (directory) name, a dash, the trait's name.
pub open spec fn pair_label(cfg: LayerConfig, t: Trait) -> Seq<char> {
    cfg.name@ + "-"@ + t.name@
}

/// The names of the visible traits among the first `k` resolved layers,
/// in layer order; no-trait selections contribute nothing.
pub open spec fn visible_names(tsets: Seq<Vec<Trait>>, finals: Seq<usize>, k: int) -> Seq<Seq<char>>
    decreases k,
{
    if k <= 0 {
        Seq::empty()
    } else {
        let prev = visible_names(tsets, finals, k - 1);
        let t = tsets[k - 1]@[finals[k - 1] as int];
        if t.visual() {
            prev.push(t.name@)
        } else {
            prev
        }
    }
}

/// The labels of the visible traits among the first `k` resolved
/// layers, in layer order.
pub open spec fn visible_labels(
    tsets: Seq<Vec<Trait>>,
    cfgs: Seq<LayerConfig>,
    finals: Seq<usize>,
    k: int,
) -> Seq<Seq<char>>
    decreases k,
{
    if k <= 0 {
        Seq::empty()
    } else {
        let prev = visible_labels(tsets, cfgs, finals, k - 1);
        let t = tsets[k - 1]@[finals[k - 1] as int];
        if t.visual() {
            prev.push(pair_label(cfgs[k - 1], t))
        } else {
            prev
        }
    }
}

/// What every drawn combination satisfies before exclusion: one valid
/// index per layer; never a zero-weight entry while the layer has any
/// weight, and the last entry whenever the layer's total weight is
/// zero.
pub open spec fn base_valid(tsets: Seq<Vec<Trait>>, base: Seq<usize>) -> bool {
    &&& base.len() == tsets.len()
    &&& forall|i: int|
        0 <= i < tsets.len() ==> {
            &&& (#[trigger] base[i]) < tsets[i]@.len()
            &&& (weight_sum(tsets[i]@, tsets[i]@.len() as int) > 0 ==> tsets[i]@[base[i] as int].weight
                > 0)
            &&& (weight_sum(tsets[i]@, tsets[i]@.len() as int) == 0 ==> base[i] as int
                == tsets[i]@.len() - 1)
        }
}

impl Layers {
    /// One weighted draw per layer.  Which indices come back depends on
    /// the random generator; every outcome is a combination valid in
    /// the sense of `base_valid`.
    #[verifier::loop_isolation(false)]
    pub fn sample_base(&self) -> (r: Vec<usize>)
        requires
            forall|i: int|
                0 <= i < self.trait_sets@.len() ==> (#[trigger] self.trait_sets@[i]@.len()) > 0,
            forall|i: int|
                0 <= i < self.trait_sets@.len() ==> (#[trigger] self.trait_sets@[i]@.len())
                    <= 0xFFFF_FFFF,
        ensures
            base_valid(self.trait_sets@, r@),
    {
        let mut picks: Vec<usize> = Vec::new();
        let mut li: usize = 0;
        while li < self.trait_sets.len()
            invariant
                li <= self.trait_sets@.len(),
                picks@.len() == li,
                forall|i: int|
                    0 <= i < li ==> {
                        &&& (#[trigger] picks@[i]) < self.trait_sets@[i]@.len()
                        &&& (weight_sum(self.trait_sets@[i]@, self.trait_sets@[i]@.len() as int) > 0
                            ==> self.trait_sets@[i]@[picks@[i] as int].weight > 0)
                        &&& (weight_sum(self.trait_sets@[i]@, self.trait_sets@[i]@.len() as int)
                            == 0 ==> picks@[i] as int == self.trait_sets@[i]@.len() - 1)
                    },
            decreases self.trait_sets@.len() - li,
        {
            let ts = &self.trait_sets[li];
            let mut total: u64 = 0;
            let mut j: usize = 0;
            while j < ts.len()
                invariant
                    j <= ts@.len(),
                    total as int == weight_sum(ts@, j as int),
                    total as int <= (j as int) * 0xFFFF_FFFF,
                decreases ts@.len() - j,
            {
                let wt = ts[j].weight as u64;
                proof {
                    assert((j as int + 1) * 0xFFFF_FFFF == (j as int) * 0xFFFF_FFFF + 0xFFFF_FFFF)
                        by (nonlinear_arith);
                    assert((j as int + 1) * 0xFFFF_FFFF <= 0x1_0000_0000 * 0xFFFF_FFFF)
                        by (nonlinear_arith)
                        requires
                            j as int + 1 <= 0x1_0000_0000,
                    ;
                }
                total = total + wt;
                j += 1;
            }
            let n: u64 = if total > 0 {
                draw_below(total)
            } else {
                0
            };
            let sel = select_trait(ts, n);
            picks.push(sel);
            li += 1;
        }
        picks
    }

    /// Collects the visible trait names and labels of a resolved
    /// combination, in layer order.
    #[verifier::loop_isolation(false)]
    fn resolved_outputs(&self, layer_cfgs: &[LayerConfig], finals: &Vec<usize>) -> (r: (
        Vec<String>,
        Vec<String>,
    ))
        requires
            layer_cfgs@.len() == self.trait_sets@.len(),
            finals@.len() == self.trait_sets@.len(),
            forall|i: int|
                0 <= i < finals@.len() ==> (#[trigger] finals@[i]) < self.trait_sets@[i]@.len(),
        ensures
            label_views(r.0@) == visible_names(
                self.trait_sets@,
                finals@,
                self.trait_sets@.len() as int,
            ),
            label_views(r.1@) == visible_labels(
                self.trait_sets@,
                layer_cfgs@,
                finals@,
                self.trait_sets@.len() as int,
            ),
    {
        let mut names: Vec<String> = Vec::new();
        let mut labels: Vec<String> = Vec::new();
        let mut k: usize = 0;
        proof {
            assert(label_views(names@) =~= Seq::<Seq<char>>::empty());
            assert(label_views(labels@) =~= Seq::<Seq<char>>::empty());
        }
        while k < finals.len()
            invariant
                k <= finals@.len(),
                label_views(names@) =~= visible_names(self.trait_sets@, finals@, k as int),
                label_views(labels@) =~= visible_labels(
                    self.trait_sets@,
                    layer_cfgs@,
                    finals@,
                    k as int,
                ),
            decreases finals@.len() - k,
        {
            let t = &self.trait_sets[k][finals[k]];
            if t.image.is_some() {
                names.push(t.name.clone());
                let label = layer_cfgs[k].name.clone().concat("-").concat(t.name.as_str());
                proof {
                    assert(label@ == pair_label(
                        layer_cfgs@[k as int],
                        self.trait_sets@[k as int]@[finals@[k as int] as int],
                    ));
                }
                labels.push(label);
            }
            k += 1;
        }
        (names, labels)
    }

    /// Draws one weighted combination, resolves the exclusion rules,
    /// and returns the final trait indices together with the visible
    /// trait names and the canonical fingerprint of the visible labels.
    /// Which combination comes back depends on the random draws; for
    /// every outcome the indices arise from some valid draw by the
    /// exclusion pass, and the names and fingerprint describe exactly
    /// the returned combination.
    pub fn create_unique(&self, layer_cfgs: &[LayerConfig]) -> (r: (Vec<usize>, Vec<String>, String))
        requires
            layer_cfgs@.len() == self.trait_sets@.len(),
            forall|i: int|
                0 <= i < self.trait_sets@.len() ==> (#[trigger] self.trait_sets@[i]@.len()) > 0,
            forall|i: int|
                0 <= i < self.trait_sets@.len() ==> (#[trigger] self.trait_sets@[i]@.len())
                    <= 0xFFFF_FFFF,
        ensures
            r.0@.len() == self.trait_sets@.len(),
            forall|k: int|
                0 <= k < r.0@.len() ==> (#[trigger] r.0@[k]) < self.trait_sets@[k]@.len(),
            exists|base: Seq<usize>|
                base_valid(self.trait_sets@, base) && forall|k: int|
                    0 <= k < r.0@.len() ==> (#[trigger] r.0@[k]) as int == resolved_pick(
                        self.trait_sets@,
                        layer_cfgs@,
                        base,
                        k,
                    ),
            label_views(r.1@) == visible_names(
                self.trait_sets@,
                r.0@,
                self.trait_sets@.len() as int,
            ),
            r.2@ == crate::fingerprint::fingerprint_of(
                visible_labels(self.trait_sets@, layer_cfgs@, r.0@, self.trait_sets@.len() as int),
            ),
    {
        let base = self.sample_base();
        let finals = self.apply_excludes(layer_cfgs, &base);
        let outputs = self.resolved_outputs(layer_cfgs, &finals);
        let (names, labels) = outputs;
        let dna = crate::fingerprint::hash_dna(&labels);
        proof {
            let b = base@;
            assert(base_valid(self.trait_sets@, b) && forall|k: int|
                0 <= k < finals@.len() ==> (#[trigger] finals@[k]) as int == resolved_pick(
                    self.trait_sets@,
                    layer_cfgs@,
                    b,
                    k,
                ));
        }
        (finals, names, dna)
    }
}

} // verus!
