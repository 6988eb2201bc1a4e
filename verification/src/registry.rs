//! The instrument registry: a static mapping from feed-assigned instrument
//! key to display metadata, loaded once before the session starts and
//! read-only afterwards.
//!
//! Rows are kept in source order; duplicate keys are resolved by the
//! last-row-wins policy, expressed by [`last_match`]: a lookup answers with
//! the last row whose key matches.

use vstd::prelude::*;
use crate::bytes::byte_views;
use crate::bytes::bytes_eq;
use crate::bytes::copy_bytes;
use crate::bytes::split_bytes;
use crate::bytes::split_exec;
use crate::errors::FeedError;

verus! {

/// Mathematical image of one instrument row.
pub ghost struct InstrumentView {
    pub display_symbol: Seq<u8>,
    pub count: Seq<u8>,
    pub price_value: Seq<u8>,
    pub secondary_name: Seq<u8>,
    pub key: Seq<u8>,
}

/// One row of the instrument source file, in its fixed column order:
/// display symbol, a count, a price-like value, a secondary name, and the
/// feed-assigned key. All but the key are carried opaquely.
pub struct Instrument {
    pub display_symbol: Vec<u8>,
    pub count: Vec<u8>,
    pub price_value: Vec<u8>,
    pub secondary_name: Vec<u8>,
    pub key: Vec<u8>,
}

impl View for Instrument {
    type V = InstrumentView;

    open spec fn view(&self) -> InstrumentView {
        InstrumentView {
            display_symbol: self.display_symbol@,
            count: self.count@,
            price_value: self.price_value@,
            secondary_name: self.secondary_name@,
            key: self.key@,
        }
    }
}

/// The last row in `rows` whose key is `key`, if any: the row that the
/// last-row-wins policy elects for that key.
pub open spec fn last_match(rows: Seq<InstrumentView>, key: Seq<u8>) -> Option<InstrumentView>
    decreases rows.len(),
{
    if rows.len() == 0 {
        None
    } else if rows.last().key == key {
        Some(rows.last())
    } else {
        last_match(rows.drop_last(), key)
    }
}

/// The keys of the loaded rows, in row order.
pub open spec fn keys_of(rows: Seq<InstrumentView>) -> Seq<Seq<u8>> {
    rows.map_values(|r: InstrumentView| r.key)
}

/// The set of distinct keys among the loaded rows.
pub open spec fn key_set(rows: Seq<InstrumentView>) -> Set<Seq<u8>> {
    keys_of(rows).to_set()
}

/// The views of loaded instrument rows.
pub open spec fn rows_view(rows: Seq<Instrument>) -> Seq<InstrumentView> {
    rows.map_values(|r: Instrument| r@)
}

/// The instrument registry, read-only once loaded.
pub struct Registry {
    rows: Vec<Instrument>,
}

impl View for Registry {
    type V = Seq<InstrumentView>;

    closed spec fn view(&self) -> Seq<InstrumentView> {
        rows_view(self.rows@)
    }
}

impl Registry {
    /// Number of distinct instrument keys: the size of the loaded mapping.
    pub open spec fn key_count(self) -> nat {
        key_set(self@).len()
    }

    /// Build the registry from parsed rows, keeping source order.
    pub fn from_rows(rows: Vec<Instrument>) -> (reg: Registry)
        ensures
            reg@ == rows_view(rows@),
    {
        Registry { rows }
    }

    /// Load the registry from the delimited instrument source: parse every
    /// row or fail with no partial registry.
    pub fn load(src: &[u8]) -> (r: Result<Registry, FeedError>)
        ensures
            match r {
                Ok(reg) => parse_rows(src@) == Some(reg@),
                Err(e) => parse_rows(src@) is None && e == FeedError::Parse,
            },
    {
        match parse_instruments(src) {
            Ok(rows) => Ok(Registry::from_rows(rows)),
            Err(e) => Err(e),
        }
    }

    /// How many rows were loaded (duplicates included).
    pub fn row_count(&self) -> (n: usize)
        ensures
            n == self@.len(),
    {
        self.rows.len()
    }

    /// Look an instrument key up; the last row with that key wins.
    pub fn lookup<'a>(&'a self, key: &[u8]) -> (r: Option<&'a Instrument>)
        ensures
            match r {
                Some(instr) => last_match(self@, key@) == Some(instr@),
                None => last_match(self@, key@) is None,
            },
    {
        let mut j: usize = self.rows.len();
        assert(self@.take(j as int) =~= self@);
        while j > 0
            invariant
                j <= self@.len(),
                self@.len() == self.rows@.len(),
                last_match(self@, key@) == last_match(self@.take(j as int), key@),
            decreases j,
        {
            j -= 1;
            assert(self@.take(j + 1).last() == self@[j as int]);
            assert(self@.take(j + 1).drop_last() =~= self@.take(j as int));
            if bytes_eq(self.rows[j].key.as_slice(), key) {
                assert(self@[j as int] == self.rows@[j as int]@);
                return Some(&self.rows[j]);
            }
        }
        assert(self@.take(0) =~= Seq::<InstrumentView>::empty());
        None
    }

    /// The distinct instrument keys, one copy each: the set that the
    /// session subscribes to.
    #[verifier::rlimit(50)]
    pub fn all_keys(&self) -> (keys: Vec<Vec<u8>>)
        ensures
            byte_views(keys@).no_duplicates(),
            forall|i: int|
                0 <= i < self@.len() ==> byte_views(keys@).contains(#[trigger] self@[i].key),
            forall|j: int|
                0 <= j < keys@.len() ==> keys_of(self@).contains(#[trigger] keys@[j]@),
            keys@.len() == self.key_count(),
    {
        let mut keys: Vec<Vec<u8>> = Vec::new();
        let mut i: usize = 0;
        while i < self.rows.len()
            invariant
                i <= self@.len(),
                self@.len() == self.rows@.len(),
                byte_views(keys@).no_duplicates(),
                forall|p: int|
                    0 <= p < i ==> byte_views(keys@).contains(#[trigger] self@[p].key),
                forall|j: int|
                    0 <= j < keys@.len() ==> keys_of(self@).contains(#[trigger] keys@[j]@),
            decreases self@.len() - i,
        {
            proof {
                assert(self@[i as int] == self.rows@[i as int]@);
            }
            let ghost old_keys = keys@;
            let ghost kv_new = self.rows@[i as int].key@;
            let present = contains_bytes(&keys, self.rows[i].key.as_slice());
            if !present {
                keys.push(copy_bytes(self.rows[i].key.as_slice()));
            }
            proof {
                let mapped_old = byte_views(old_keys);
                let mapped_new = byte_views(keys@);
                if !present {
                    assert(mapped_new =~= mapped_old.push(kv_new));
                    assert(mapped_new.no_duplicates()) by {
                        assert forall|a: int, b: int|
                            0 <= a < mapped_new.len() && 0 <= b < mapped_new.len() && a != b
                                implies mapped_new[a] != mapped_new[b] by {
                            if a < mapped_old.len() && b < mapped_old.len() {
                                assert(mapped_old[a] != mapped_old[b]);
                            } else if b == mapped_old.len() {
                                assert(mapped_new[a] == mapped_old[a]);
                                assert(!mapped_old.contains(kv_new));
                            } else {
                                assert(mapped_new[b] == mapped_old[b]);
                                assert(!mapped_old.contains(kv_new));
                            }
                        }
                    }
                }
                assert(mapped_new.contains(kv_new)) by {
                    if present {
                        assert(mapped_old.contains(kv_new));
                        let j = choose|j: int|
                            0 <= j < mapped_old.len() && mapped_old[j] == kv_new;
                        assert(mapped_new[j] == kv_new);
                    } else {
                        assert(mapped_new[mapped_old.len() as int] == kv_new);
                    }
                }
                assert forall|p: int| 0 <= p < i + 1 implies mapped_new.contains(
                    #[trigger] self@[p].key,
                ) by {
                    if p < i {
                        let j = choose|j: int|
                            0 <= j < mapped_old.len() && mapped_old[j] == self@[p].key;
                        assert(mapped_new[j] == self@[p].key);
                    } else {
                        assert(self@[p].key == kv_new);
                    }
                }
                assert forall|j: int| 0 <= j < keys@.len() implies keys_of(self@).contains(
                    #[trigger] keys@[j]@,
                ) by {
                    if j < old_keys.len() {
                        assert(keys@[j] == old_keys[j]);
                    } else {
                        assert(keys@[j]@ == kv_new);
                        assert(keys_of(self@)[i as int] == self@[i as int].key);
                        assert(keys_of(self@).contains(self@[i as int].key));
                    }
                }
            }
            i += 1;
        }
        proof {
            self.lemma_key_count(keys@);
        }
        keys
    }

    /// A duplicate-free key list holding exactly the keys of the loaded rows
    /// has the key count as its length.
    proof fn lemma_key_count(&self, keys: Seq<Vec<u8>>)
        requires
            byte_views(keys).no_duplicates(),
            forall|i: int|
                0 <= i < self@.len() ==> byte_views(keys).contains(#[trigger] self@[i].key),
            forall|j: int|
                0 <= j < keys.len() ==> keys_of(self@).contains(#[trigger] keys[j]@),
        ensures
            keys.len() == self.key_count(),
    {
        let kviews = byte_views(keys);
        assert(kviews.to_set() =~= key_set(self@)) by {
            assert forall|k: Seq<u8>| kviews.contains(k) implies keys_of(self@).contains(k) by {
                let j = choose|j: int| 0 <= j < kviews.len() && kviews[j] == k;
                assert(keys[j]@ == k);
            }
            assert forall|k: Seq<u8>| keys_of(self@).contains(k) implies kviews.contains(k) by {
                let i = choose|i: int|
                    0 <= i < keys_of(self@).len() && keys_of(self@)[i] == k;
                assert(self@[i].key == k);
            }
        }
        kviews.unique_seq_to_set();
        assert(kviews.len() == keys.len());
    }
}

/// Whether one of the collected keys already equals `key`.
fn contains_bytes(keys: &Vec<Vec<u8>>, key: &[u8]) -> (r: bool)
    ensures
        r <==> byte_views(keys@).contains(key@),
{
    let mut j: usize = 0;
    while j < keys.len()
        invariant
            j <= keys@.len(),
            forall|p: int| 0 <= p < j ==> byte_views(keys@)[p] != key@,
        decreases keys@.len() - j,
    {
        if bytes_eq(keys[j].as_slice(), key) {
            assert(byte_views(keys@)[j as int] == key@);
            return true;
        }
        j += 1;
    }
    false
}

/// With pairwise-distinct keys the mapping is exact: looking a row's key
/// up answers that very row.
pub proof fn lemma_lookup_unique_keys(rows: Seq<InstrumentView>, i: int)
    requires
        0 <= i < rows.len(),
        forall|a: int, b: int|
            0 <= a < rows.len() && 0 <= b < rows.len() && a != b ==> rows[a].key != rows[b].key,
    ensures
        last_match(rows, rows[i].key) == Some(rows[i]),
{
    lemma_last_match_is_last(rows, rows[i].key, i);
}

/// A repeated key is answered with its last occurrence: if no later row
/// bears the key, the lookup answers the row at `i`.
pub proof fn lemma_last_match_is_last(rows: Seq<InstrumentView>, key: Seq<u8>, i: int)
    requires
        0 <= i < rows.len(),
        rows[i].key == key,
        forall|j: int| i < j < rows.len() ==> rows[j].key != key,
    ensures
        last_match(rows, key) == Some(rows[i]),
    decreases rows.len(),
{
    if i == rows.len() - 1 {
    } else {
        assert(rows.last().key != key);
        assert(rows.drop_last()[i] == rows[i]);
        lemma_last_match_is_last(rows.drop_last(), key, i);
    }
}

/// The instrument view a row's five fields make, in the fixed column order.
pub open spec fn row_of(fields: Seq<Seq<u8>>) -> InstrumentView {
    InstrumentView {
        display_symbol: fields[0],
        count: fields[1],
        price_value: fields[2],
        secondary_name: fields[3],
        key: fields[4],
    }
}

/// The rows of the source, one line each, an optional final newline
/// dropped.
pub open spec fn source_lines(src: Seq<u8>) -> Seq<Seq<u8>> {
    let all_lines = split_bytes(src, 10);
    if all_lines.last().len() == 0 {
        all_lines.drop_last()
    } else {
        all_lines
    }
}

/// The grammar of the instrument source: newline-separated rows, an
/// optional final newline, and exactly five comma-separated fields per
/// row. A source with any other row shape has no parse: the registry is
/// all-or-nothing.
pub open spec fn parse_rows(src: Seq<u8>) -> Option<Seq<InstrumentView>> {
    let lines = source_lines(src);
    if forall|i: int| 0 <= i < lines.len() ==> split_bytes(#[trigger] lines[i], 44).len() == 5 {
        Some(Seq::new(lines.len(), |i: int| row_of(split_bytes(lines[i], 44))))
    } else {
        None
    }
}

/// Parse the delimited instrument source. A malformed row is fatal: no
/// partial registry is ever produced.
pub fn parse_instruments(src: &[u8]) -> (r: Result<Vec<Instrument>, FeedError>)
    ensures
        match r {
            Ok(rows) => parse_rows(src@) == Some(rows_view(rows@)),
            Err(e) => parse_rows(src@) is None && e == FeedError::Parse,
        },
{
    let mut lines = split_exec(src, 10);
    let ghost all_lines = byte_views(lines@);
    if lines.len() > 0 && lines[lines.len() - 1].len() == 0 {
        lines.pop();
        proof {
            assert(byte_views(lines@) =~= all_lines.drop_last());
        }
    }
    let ghost lv = byte_views(lines@);
    proof {
        assert(all_lines.len() > 0);
        assert(lv == source_lines(src@));
    }
    let mut rows: Vec<Instrument> = Vec::new();
    let mut i: usize = 0;
    proof {
        assert(rows_view(rows@) =~= Seq::new(0nat, |j: int| row_of(split_bytes(lv[j], 44))));
    }
    while i < lines.len()
        invariant
            i <= lines@.len(),
            lv == byte_views(lines@),
            lv == source_lines(src@),
            forall|j: int| 0 <= j < i ==> split_bytes(#[trigger] lv[j], 44).len() == 5,
            rows_view(rows@) == Seq::new(i as nat, |j: int| row_of(split_bytes(lv[j], 44))),
        decreases lines@.len() - i,
    {
        let mut fields = split_exec(lines[i].as_slice(), 44);
        let ghost fv = byte_views(fields@);
        proof {
            assert(lv[i as int] == lines@[i as int]@);
        }
        if fields.len() != 5 {
            proof {
                assert(split_bytes(lv[i as int], 44).len() != 5);
            }
            return Err(FeedError::Parse);
        }
        let key = fields.pop().unwrap();
        let secondary_name = fields.pop().unwrap();
        let price_value = fields.pop().unwrap();
        let count = fields.pop().unwrap();
        let display_symbol = fields.pop().unwrap();
        let row = Instrument { display_symbol, count, price_value, secondary_name, key };
        proof {
            assert(row@ == row_of(fv));
        }
        let ghost prev = rows@;
        rows.push(row);
        proof {
            assert(rows_view(rows@) =~= rows_view(prev).push(row@));
            assert(rows_view(rows@) =~= Seq::new(
                (i + 1) as nat,
                |j: int| row_of(split_bytes(lv[j], 44)),
            ));
        }
        i += 1;
    }
    proof {
        assert(rows_view(rows@) =~= Seq::new(
            lv.len(),
            |j: int| row_of(split_bytes(lv[j], 44)),
        ));
    }
    Ok(rows)
}

} // verus!
