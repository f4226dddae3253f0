//! Finding the longest of a set of keys that a text starts with, in a
//! packed trie that the crate fastrie builds and reads.

use vstd::prelude::*;
use fastrie::{Fastrie, FastrieBuilderNode, IndexWidth};

verus! {

/// `FastrieBuilderNode` of fastrie: a trie under construction.
#[verifier::external_type_specification]
#[verifier::external_body]
#[verifier::reject_recursive_types(V)]
pub struct ExFastrieBuilderNode<V>(FastrieBuilderNode<V>);

/// What a builder holds: each key added with the value last added for it;
/// or `None` once a trie has been built from it.
pub uninterp spec fn builder_entries(builder: FastrieBuilderNode<usize>) -> Option<
    Map<Seq<u8>, usize>,
>;

/// How many bytes the builder gives each index of the image it lays out.
pub uninterp spec fn builder_index_width(builder: FastrieBuilderNode<usize>) -> nat;

/// What a builder that holds `entries` and gives each index `index_width`
/// bytes lays out: the image, and the values in the order of their places.
pub uninterp spec fn trie_layout(index_width: nat, entries: Map<Seq<u8>, usize>) -> (
    Seq<u8>,
    Seq<usize>,
);

/// What a packed trie image holds: for each key the place of its value
/// among the values laid out with it; or `None` where `data` is no image
/// that can be read with indices of `index_width` bytes.
pub uninterp spec fn trie_image(index_width: nat, data: Seq<u8>) -> Option<Map<Seq<u8>, nat>>;

/// Whether `image` and `values` together hold exactly `entries`.
pub open spec fn holds_entries<V>(
    image: Map<Seq<u8>, nat>,
    values: Seq<V>,
    entries: Map<Seq<u8>, V>,
) -> bool {
    &&& image.dom() == entries.dom()
    &&& forall|key: Seq<u8>| #[trigger]
        image.dom().contains(key) ==> image[key] < values.len() && values[image[key] as int]
            == entries[key]
}

/// What an image and the values laid out with it hold together: each key
/// with its value.
pub open spec fn image_entries<V>(image: Map<Seq<u8>, nat>, values: Seq<V>) -> Map<Seq<u8>, V> {
    Map::new(|key: Seq<u8>| image.dom().contains(key), |key: Seq<u8>| values[image[key] as int])
}

/// Whether `key` is the longest key of `entries`, the empty one apart, that
/// `text` starts with.
pub open spec fn longest_key<V>(entries: Map<Seq<u8>, V>, text: Seq<u8>, key: Seq<u8>) -> bool {
    &&& key.len() > 0
    &&& entries.dom().contains(key)
    &&& key.is_prefix_of(text)
    &&& forall|other: Seq<u8>| #[trigger]
        entries.dom().contains(other) && other.is_prefix_of(text) ==> other.len() <= key.len()
}

/// Whether `text` starts with no key of `entries` but, at most, the empty
/// one.
pub open spec fn no_key<V>(entries: Map<Seq<u8>, V>, text: Seq<u8>) -> bool {
    forall|key: Seq<u8>| #[trigger]
        entries.dom().contains(key) && key.len() > 0 ==> !key.is_prefix_of(text)
}

/// What a lookup of `text` in `entries` gives: the index of the last byte
/// of the longest key that `text` starts with, and that key's value.
pub open spec fn lookup_gives<V>(
    entries: Map<Seq<u8>, V>,
    text: Seq<u8>,
    found: Option<(usize, V)>,
) -> bool {
    match found {
        Some((end, value)) => {
            &&& end < text.len()
            &&& longest_key(entries, text, text.subrange(0, end + 1))
            &&& value == entries[text.subrange(0, end + 1)]
        },
        None => no_key(entries, text),
    }
}

/// Whether indices of `index_width` bytes can address an image of
/// `data_len` bytes with `value_count` values on every machine.
pub open spec fn spec_index_fits(index_width: usize, data_len: nat, value_count: nat) -> bool {
    &&& 1 <= index_width <= 4
    &&& data_len < vstd::arithmetic::power2::pow2(8 * index_width as nat)
    &&& value_count < vstd::arithmetic::power2::pow2(8 * index_width as nat)
}

/// An empty builder, by `FastrieBuilderNode::new` of fastrie: it holds no
/// key, and gives each index as many bytes as it is told.
#[verifier::external_body]
fn builder_new(index_width: usize) -> (builder: FastrieBuilderNode<usize>)
    ensures
        builder_entries(builder) == Some(Map::<Seq<u8>, usize>::empty()),
        builder_index_width(builder) == index_width,
{
    FastrieBuilderNode::new(IndexWidth(index_width))
}

/// Adds a key with its value, by `FastrieBuilderNode::add` of fastrie: the
/// value takes the place of one added for the same key before, and nothing
/// else changes.
#[verifier::external_body]
fn builder_add(builder: &mut FastrieBuilderNode<usize>, key: &[u8], value: usize)
    requires
        builder_entries(*old(builder)) is Some,
    ensures
        builder_entries(*final(builder)) == Some(
            builder_entries(*old(builder))->0.insert(key@, value),
        ),
        builder_index_width(*final(builder)) == builder_index_width(*old(builder)),
{
    builder.add(key, value)
}

/// Lays the trie out, by `FastrieBuilderNode::prebuild` of fastrie, and
/// returns the image and the values in the order of their places: what is
/// laid out depends on nothing but what the builder holds and the bytes it
/// gives an index. Where every index that the builder wrote fits into those
/// bytes, the image can be read back and holds, with the values, what the
/// builder held.
#[verifier::external_body]
fn builder_prebuild(builder: FastrieBuilderNode<usize>) -> (built: (Vec<u8>, Vec<usize>))
    requires
        builder_entries(builder) is Some,
        1 <= builder_index_width(builder) <= 4,
    ensures
        (built.0@, built.1@) == trie_layout(
            builder_index_width(builder),
            builder_entries(builder)->0,
        ),
        spec_index_fits(
            builder_index_width(builder) as usize,
            built.0@.len(),
            built.1@.len(),
        ) ==> (trie_image(builder_index_width(builder), built.0@) matches Some(image)
            && holds_entries(image, built.1@, builder_entries(builder)->0)),
{
    let mut builder = builder;
    let build = builder.prebuild();
    (build.data, build.values)
}

/// Looks `text` up by `Fastrie::from_prebuilt` and
/// `Fastrie::longest_matching_prefix` of fastrie, on an image that can be
/// read back: the result is the longest key, the empty one apart, that `text`
/// starts with, given by the index of its last byte, and the value that
/// stands at that key's place.
#[verifier::external_body]
fn longest_matching_prefix(index_width: usize, data: &[u8], values: &[usize], text: &[u8]) -> (found:
    Option<(usize, usize)>)
    requires
        trie_image(index_width as nat, data@) matches Some(image) && forall|key: Seq<u8>| #[trigger]
            image.dom().contains(key) ==> image[key] < values@.len(),
    ensures
        lookup_gives(
            image_entries(trie_image(index_width as nat, data@)->0, values@),
            text@,
            found,
        ),
{
    Fastrie::from_prebuilt(IndexWidth(index_width), values, data).longest_matching_prefix(text).map(
        |m| (m.end, *m.value),
    )
}

/// The mapping that a list of additions leaves: of two additions with the
/// same key, the later one stands.
pub open spec fn entries_of<V>(keys: Seq<Seq<u8>>, values: Seq<V>) -> Map<Seq<u8>, V>
    recommends
        keys.len() == values.len(),
    decreases keys.len(),
{
    if keys.len() == 0 || values.len() == 0 {
        Map::empty()
    } else {
        entries_of(keys.drop_last(), values.drop_last()).insert(keys.last(), values.last())
    }
}

/// The keys, each with its number in the list: of two equal keys, the
/// later number stands.
pub open spec fn numbered(keys: Seq<Seq<u8>>) -> Map<Seq<u8>, usize> {
    entries_of(keys, Seq::new(keys.len(), |j: int| j as usize))
}

/// Whether the trie of `keys` can be laid out with indices of `index_width`
/// bytes: the width is one that every machine reads, and the image and the
/// number of values that it is laid out with are below what such an index
/// can hold.
pub open spec fn can_build(index_width: usize, keys: Seq<Seq<u8>>) -> bool {
    let layout = trie_layout(index_width as nat, numbered(keys));
    spec_index_fits(index_width, layout.0.len(), layout.1.len())
}

/// Whether the image `data` can be read back with indices of `index_width`
/// bytes, each key in it has a place among `places`, and at each such place
/// stands the number of one of `value_count` values.
pub open spec fn readable(
    index_width: nat,
    data: Seq<u8>,
    places: Seq<usize>,
    value_count: nat,
) -> bool {
    trie_image(index_width, data) matches Some(image) && forall|key: Seq<u8>| #[trigger]
        image.dom().contains(key) ==> image[key] < places.len() && places[image[key] as int]
            < value_count
}

/// What an image, the numbers at its places and the values hold together:
/// each key with its value.
pub open spec fn placed_entries<V>(
    index_width: nat,
    data: Seq<u8>,
    places: Seq<usize>,
    values: Seq<V>,
) -> Map<Seq<u8>, V> {
    let placed = image_entries(trie_image(index_width, data)->0, places);
    Map::new(
        |key: Seq<u8>| placed.dom().contains(key),
        |key: Seq<u8>| values[placed[key] as int],
    )
}

/// A set of byte strings, each with a value, packed for finding the longest
/// one that a text starts with.
pub struct Trie<V> {
    index_width: usize,
    data: Vec<u8>,
    // For each place in the image, which of the values stands there.
    places: Vec<usize>,
    values: Vec<V>,
}

impl<V: Copy> Trie<V> {
    /// What the trie holds: each key with its value.
    pub closed spec fn entries(&self) -> Map<Seq<u8>, V> {
        placed_entries(self.index_width as nat, self.data@, self.places@, self.values@)
    }

    /// The packed image can be read back, and each key has a value.
    pub closed spec fn wf(&self) -> bool {
        readable(self.index_width as nat, self.data@, self.places@, self.values@.len())
    }

    /// Whether indices of `index_width` bytes can address an image of
    /// `data_len` bytes with `value_count` values.
    pub fn index_fits(index_width: usize, data_len: usize, value_count: usize) -> (r: bool)
        ensures
            r == spec_index_fits(index_width, data_len as nat, value_count as nat),
    {
        if index_width < 1 || index_width > 4 {
            return false;
        }
        let limit: u64 = 1u64 << (8 * (index_width as u64));
        proof {
            let w = index_width as u64;
            assert(1u64 << (8 * w) == if w == 1 {
                0x100u64
            } else if w == 2 {
                0x1_0000u64
            } else if w == 3 {
                0x100_0000u64
            } else {
                0x1_0000_0000u64
            }) by (bit_vector)
                requires
                    1 <= w <= 4,
            ;
            vstd::arithmetic::power2::lemma2_to64();
            vstd::arithmetic::power2::lemma2_to64_rest();
        }
        (data_len as u64) < limit && (value_count as u64) < limit
    }

    /// Makes a trie of an image, the numbers at its places and the values,
    /// where indices of `index_width` bytes can address them; gives nothing
    /// where they cannot.
    pub fn assemble(index_width: usize, data: Vec<u8>, places: Vec<usize>, values: Vec<V>) -> (trie:
        Option<Trie<V>>)
        requires
            spec_index_fits(index_width, data@.len(), places@.len()) ==> readable(
                index_width as nat,
                data@,
                places@,
                values@.len(),
            ),
        ensures
            trie is Some <==> spec_index_fits(index_width, data@.len(), places@.len()),
            trie matches Some(t) ==> t.wf() && t.entries() == placed_entries(
                index_width as nat,
                data@,
                places@,
                values@,
            ),
    {
        if Self::index_fits(index_width, data.len(), places.len()) {
            Some(Trie { index_width, data, places, values })
        } else {
            None
        }
    }

    /// Packs the keys, each with the value at the same place, into a trie
    /// whose indices take `index_width` bytes. Gives nothing where there
    /// are not as many values as keys, or where the indices are too narrow
    /// for what is laid out.
    pub fn build(index_width: usize, keys: &Vec<Vec<u8>>, values: &Vec<V>) -> (trie: Option<
        Trie<V>,
    >)
        ensures
            trie is Some <==> keys.len() == values.len() && can_build(
                index_width,
                keys.deep_view(),
            ),
            trie matches Some(t) ==> t.wf() && t.entries() == entries_of(
                keys.deep_view(),
                values@,
            ),
    {
        let n = keys.len();
        if n != values.len() || index_width < 1 || index_width > 4 {
            return None;
        }
        let mut builder = builder_new(index_width);
        let mut i: usize = 0;
        while i < n
            invariant
                n == keys.len(),
                n == values.len(),
                i <= n,
                builder_index_width(builder) == index_width,
                builder_entries(builder) == Some(numbered(keys.deep_view().take(i as int))),
            decreases n - i,
        {
            builder_add(&mut builder, keys[i].as_slice(), i);
            proof {
                let all = keys.deep_view();
                let nos = Seq::new((i + 1) as nat, |j: int| j as usize);
                assert(all.take(i + 1).drop_last() =~= all.take(i as int));
                assert(nos.drop_last() =~= Seq::new(i as nat, |j: int| j as usize));
                assert(all.take(i + 1).last() == keys[i as int]@);
            }
            i += 1;
        }
        assert(keys.deep_view().take(n as int) =~= keys.deep_view());
        let (data, places) = builder_prebuild(builder);
        let mut copied: Vec<V> = Vec::new();
        let mut k: usize = 0;
        while k < n
            invariant
                n == values.len(),
                k <= n,
                copied@ == values@.take(k as int),
            decreases n - k,
        {
            copied.push(values[k]);
            k += 1;
            assert(copied@ =~= values@.take(k as int));
        }
        assert(values@.take(n as int) =~= values@);
        proof {
            lemma_entries_numbered(keys.deep_view(), values@);
            if spec_index_fits(index_width, data@.len(), places@.len()) {
                assert(placed_entries(index_width as nat, data@, places@, copied@) =~= entries_of(
                    keys.deep_view(),
                    values@,
                ));
            }
        }
        Self::assemble(index_width, data, places, copied)
    }

    /// The longest key, the empty one apart, that `text` starts with: the
    /// index of its last byte and its value.
    pub fn find(&self, text: &[u8]) -> (found: Option<(usize, V)>)
        requires
            self.wf(),
        ensures
            lookup_gives(self.entries(), text@, found),
    {
        match longest_matching_prefix(
            self.index_width,
            self.data.as_slice(),
            self.places.as_slice(),
            text,
        ) {
            Some((end, place)) => Some((end, self.values[place])),
            None => None,
        }
    }
}

/// Keys that were added with their numbers in order have numbers below
/// their count, and with each number stands the value of that key.
proof fn lemma_entries_numbered<V>(keys: Seq<Seq<u8>>, values: Seq<V>)
    requires
        keys.len() == values.len(),
        keys.len() <= usize::MAX,
    ensures
        numbered(keys).dom() == entries_of(keys, values).dom(),
        forall|key: Seq<u8>| #[trigger]
            numbered(keys).dom().contains(key) ==> numbered(keys)[key] < keys.len()
                && values[numbered(keys)[key] as int] == entries_of(keys, values)[key],
    decreases keys.len(),
{
    if keys.len() > 0 {
        let nos = Seq::new(keys.len(), |j: int| j as usize);
        lemma_entries_numbered(keys.drop_last(), values.drop_last());
        assert(nos.drop_last() =~= Seq::new(keys.drop_last().len(), |j: int| j as usize));
        let before = numbered(keys.drop_last());
        assert(numbered(keys).dom() =~= entries_of(keys, values).dom());
        assert forall|key: Seq<u8>| #[trigger] numbered(keys).dom().contains(key) implies numbered(
            keys,
        )[key] < keys.len() && values[numbered(keys)[key] as int] == entries_of(keys, values)[key] by {
            if key != keys.last() {
                assert(before.dom().contains(key));
                assert(values.drop_last()[before[key] as int] == values[before[key] as int]);
            } else {
                assert(nos.last() == (keys.len() - 1) as usize);
                assert(values.last() == values[keys.len() - 1]);
            }
        }
    } else {
        assert(numbered(keys).dom() =~= entries_of(keys, values).dom());
    }
}

} // verus!
