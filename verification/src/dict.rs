use vstd::prelude::*;

pub mod entry;
pub mod strokes;

pub use self::entry::Part as EntryPart;
pub use self::entry::{Entry, Part, PloverCommand, SpecialPunct};
pub use self::strokes::Strokes;
pub use crate::keys::parse::ParseError;
use crate::dict::entry::{entry_parts, ParseErrorModel, PartModel};
use crate::dict::strokes::strokes_parsed;
use crate::keys::Keys;
use crate::table::SeqTable;

verus! {

/// The dictionary: for each sequence of chords that it knows, an entry.
///
/// Its view is the map from each such sequence to the parts of its entry.
#[derive(Debug)]
pub struct Dict {
    table: SeqTable<Entry>,
    max_strokes: usize,
}

/// The bits of each chord of `keys`.
pub open spec fn bits_of(keys: Seq<Keys>) -> Seq<u32> {
    Seq::new(keys.len(), |i: int| keys[i].0)
}

proof fn lemma_bits_of_injective(a: Seq<Keys>, b: Seq<Keys>)
    requires
        bits_of(a) == bits_of(b),
    ensures
        a == b,
{
    assert(a.len() == bits_of(a).len());
    assert(b.len() == bits_of(b).len());
    assert forall|i: int| 0 <= i < a.len() implies a[i] == b[i] by {
        assert(bits_of(a)[i] == a[i].0);
        assert(bits_of(b)[i] == b[i].0);
    }
    assert(a =~= b);
}

fn bits_vec(keys: &[Keys]) -> (r: Vec<u32>)
    ensures
        r@ == bits_of(keys@),
{
    let mut out: Vec<u32> = Vec::new();
    let mut i: usize = 0;
    while i < keys.len()
        invariant
            i <= keys@.len(),
            out@ == bits_of(keys@).take(i as int),
        decreases keys@.len() - i,
    {
        out.push(keys[i].0);
        assert(out@ =~= bits_of(keys@).take(i + 1));
        i += 1;
    }
    assert(out@ =~= bits_of(keys@));
    out
}

/// Reads one chord of a dictionary key.
pub fn parse_part(part: &str) -> (r: Result<Keys, crate::keys::parse::ParseError>)
    ensures
        r == crate::keys::parse::parsed(part@),
{
    Keys::parse(part)
}

/// Why a list of texts is no dictionary.
#[derive(Clone, Debug, PartialEq, Eq)]
pub enum LoadError {
    /// The key of the pair at `index` is no sequence of chords.
    Strokes { index: usize, error: crate::keys::parse::ParseError },
    /// The value of the pair at `index` is no entry.
    Entry { index: usize, error: crate::dict::entry::ParseError },
    /// The key of the pair at `index` stands for chords that an earlier
    /// pair has already.
    Duplicate { index: usize },
}

/// What a `LoadError` holds, as plain values.
pub enum LoadErrorModel {
    Strokes { index: int, error: crate::keys::parse::ParseError },
    Entry { index: int, error: ParseErrorModel },
    Duplicate { index: int },
}

impl View for LoadError {
    type V = LoadErrorModel;

    open spec fn view(&self) -> LoadErrorModel {
        match self {
            LoadError::Strokes { index, error } => LoadErrorModel::Strokes {
                index: *index as int,
                error: *error,
            },
            LoadError::Entry { index, error } => LoadErrorModel::Entry {
                index: *index as int,
                error: error@,
            },
            LoadError::Duplicate { index } => LoadErrorModel::Duplicate { index: *index as int },
        }
    }
}

/// What the pairs of `pairs` from the place `from` on add to the entries
/// `so_far`: each key is read as a sequence of chords and each value as an
/// entry, and no sequence of chords may come twice. The first pair that
/// fails gives the error.
pub open spec fn loaded_from(
    pairs: Seq<(String, String)>,
    from: int,
    so_far: Map<Seq<Keys>, Seq<PartModel>>,
) -> Result<Map<Seq<Keys>, Seq<PartModel>>, LoadErrorModel>
    decreases pairs.len() - from,
{
    if from < 0 || from >= pairs.len() {
        Ok(so_far)
    } else {
        match strokes_parsed(pairs[from].0@) {
            Err(error) => Err(LoadErrorModel::Strokes { index: from, error }),
            Ok(strokes) => match entry_parts(pairs[from].1@) {
                Err(error) => Err(LoadErrorModel::Entry { index: from, error }),
                Ok(parts) => if so_far.contains_key(strokes) {
                    Err(LoadErrorModel::Duplicate { index: from })
                } else {
                    loaded_from(pairs, from + 1, so_far.insert(strokes, parts))
                },
            },
        }
    }
}

/// The length of the longest key of `entries`, and 1 where none is
/// longer.
pub open spec fn is_longest(entries: Map<Seq<Keys>, Seq<PartModel>>, longest: nat) -> bool {
    &&& longest >= 1
    &&& forall|keys: Seq<Keys>| #[trigger] entries.contains_key(keys) ==> keys.len() <= longest
    &&& longest == 1 || exists|keys: Seq<Keys>| #[trigger]
        entries.contains_key(keys) && keys.len() == longest
}

impl View for Dict {
    type V = Map<Seq<Keys>, Seq<PartModel>>;

    closed spec fn view(&self) -> Map<Seq<Keys>, Seq<PartModel>> {
        Map::new(
            |keys: Seq<Keys>| self.table@.contains_key(bits_of(keys)),
            |keys: Seq<Keys>| self.table@[bits_of(keys)]@,
        )
    }
}

impl Dict {
    /// The length of the longest key.
    pub closed spec fn spec_max_strokes(&self) -> nat {
        self.max_strokes as nat
    }

    /// `max_strokes` is the length of the longest key.
    pub open spec fn wf(&self) -> bool {
        is_longest(self@, self.spec_max_strokes())
    }

    /// The dictionary without an entry.
    pub fn new() -> (r: Dict)
        ensures
            r.wf(),
            r@ == Map::<Seq<Keys>, Seq<PartModel>>::empty(),
            r.spec_max_strokes() == 1,
    {
        let r = Dict { table: SeqTable::new(), max_strokes: 1 };
        assert(r@ =~= Map::<Seq<Keys>, Seq<PartModel>>::empty());
        r
    }

    /// The entry of a sequence of chords, if the dictionary has one.
    pub fn get(&self, keys: &[Keys]) -> (r: Option<&Entry>)
        ensures
            match r {
                Some(entry) => self@.contains_key(keys@) && entry@ == self@[keys@],
                None => !self@.contains_key(keys@),
            },
    {
        let bits = bits_vec(keys);
        self.table.get(&bits)
    }

    /// The length of the longest key; 1 where no key is longer.
    pub fn max_strokes(&self) -> (n: usize)
        ensures
            n == self.spec_max_strokes(),
    {
        self.max_strokes
    }

    /// Puts `entry` under `strokes`, which the dictionary does not hold
    /// yet.
    pub fn insert(&mut self, strokes: Strokes, entry: Entry)
        requires
            old(self).wf(),
            !old(self)@.contains_key(strokes@),
        ensures
            final(self).wf(),
            final(self)@ == old(self)@.insert(strokes@, entry@),
            final(self).spec_max_strokes() == (if strokes@.len() > old(self).spec_max_strokes() {
                strokes@.len()
            } else {
                old(self).spec_max_strokes()
            }),
    {
        let bits = bits_vec(strokes.0.as_slice());
        let count = strokes.0.len();
        let ghost keys = strokes@;
        let ghost parts = entry@;
        self.table.insert(bits, entry);
        if count > self.max_strokes {
            self.max_strokes = count;
        }
        proof {
            assert forall|other: Seq<Keys>|
                #[trigger] final(self)@.contains_key(other) == old(self)@.insert(
                    keys,
                    parts,
                ).contains_key(other) && (final(self)@.contains_key(other) ==> final(self)@[other]
                    == old(self)@.insert(keys, parts)[other]) by {
                if bits_of(other) == bits_of(keys) {
                    lemma_bits_of_injective(other, keys);
                }
            }
            assert(final(self)@ =~= old(self)@.insert(keys, parts));
            assert(final(self)@.contains_key(keys));
            if old(self).spec_max_strokes() != 1 && count <= old(self).max_strokes {
                let witness = choose|k: Seq<Keys>| #[trigger]
                    old(self)@.contains_key(k) && k.len() == old(self).spec_max_strokes();
                assert(final(self)@.contains_key(witness));
            }
        }
    }

    /// Makes a dictionary of pairs of texts: each key a sequence of chords,
    /// each value an entry.
    pub fn from_pairs(pairs: &Vec<(String, String)>) -> (r: Result<Dict, LoadError>)
        ensures
            match r {
                Ok(dict) => dict.wf() && loaded_from(pairs@, 0, Map::empty()) == Ok::<
                    Map<Seq<Keys>, Seq<PartModel>>,
                    LoadErrorModel,
                >(dict@),
                Err(error) => loaded_from(pairs@, 0, Map::empty()) == Err::<
                    Map<Seq<Keys>, Seq<PartModel>>,
                    LoadErrorModel,
                >(error@),
            },
    {
        let mut dict = Dict::new();
        let mut i: usize = 0;
        while i < pairs.len()
            invariant
                i <= pairs@.len(),
                dict.wf(),
                loaded_from(pairs@, 0, Map::empty()) == loaded_from(pairs@, i as int, dict@),
            decreases pairs@.len() - i,
        {
            let strokes = match Strokes::parse(pairs[i].0.as_str()) {
                Ok(strokes) => strokes,
                Err(error) => {
                    return Err(LoadError::Strokes { index: i, error });
                },
            };
            let entry = match Entry::parse(pairs[i].1.as_str()) {
                Ok(entry) => entry,
                Err(error) => {
                    return Err(LoadError::Entry { index: i, error });
                },
            };
            if dict.get(strokes.0.as_slice()).is_some() {
                return Err(LoadError::Duplicate { index: i });
            }
            dict.insert(strokes, entry);
            i += 1;
        }
        Ok(dict)
    }
}

} // verus!
