//! The ticker directory: a mapping from ticker symbols to numeric company
//! identifiers, built from a newline-delimited, tab-separated feed, with a
//! symbol-to-identifier and an identifier-to-symbol lookup.

use vstd::prelude::*;

use crate::text::lower;
use crate::text::parse_u64;
use crate::text::parse_u64_spec;
use crate::text::split_on;
use crate::text::split_str;
use crate::text::to_lower;
use crate::text::views;

verus! {

/// The mapping that a list of symbol/identifier pairs denotes, a later
/// pair overwriting an earlier one with the same symbol.
pub open spec fn map_of(syms: Seq<Seq<char>>, ids: Seq<u64>) -> Map<Seq<char>, u64>
    decreases syms.len(),
{
    if syms.len() == 0 {
        Map::empty()
    } else {
        map_of(syms.drop_last(), ids.drop_last()).insert(syms.last(), ids.last())
    }
}

/// Whether no symbol occurs twice.
pub open spec fn distinct(syms: Seq<Seq<char>>) -> bool {
    forall|i: int, j: int| 0 <= i < j < syms.len() ==> syms[i] != syms[j]
}

/// A key is in the mapping exactly when some pair carries it.
proof fn lemma_map_of_contains(syms: Seq<Seq<char>>, ids: Seq<u64>, k: Seq<char>)
    requires
        syms.len() == ids.len(),
    ensures
        map_of(syms, ids).dom().contains(k) <==> exists|i: int| 0 <= i < syms.len() && syms[i] == k,
    decreases syms.len(),
{
    if syms.len() > 0 {
        lemma_map_of_contains(syms.drop_last(), ids.drop_last(), k);
        if syms.last() == k {
            assert(syms[syms.len() - 1] == k);
        } else if exists|i: int| 0 <= i < syms.len() - 1 && syms.drop_last()[i] == k {
            let i = choose|i: int| 0 <= i < syms.len() - 1 && syms.drop_last()[i] == k;
            assert(syms[i] == k);
        } else if exists|i: int| 0 <= i < syms.len() && syms[i] == k {
            let i = choose|i: int| 0 <= i < syms.len() && syms[i] == k;
            assert(syms.drop_last()[i] == k);
        }
    }
}

/// With distinct symbols, the pair at `i` gives the value at its key.
proof fn lemma_map_of_at(syms: Seq<Seq<char>>, ids: Seq<u64>, i: int)
    requires
        syms.len() == ids.len(),
        distinct(syms),
        0 <= i < syms.len(),
    ensures
        map_of(syms, ids).dom().contains(syms[i]),
        map_of(syms, ids)[syms[i]] == ids[i],
    decreases syms.len(),
{
    if i < syms.len() - 1 {
        assert(distinct(syms.drop_last()));
        lemma_map_of_at(syms.drop_last(), ids.drop_last(), i);
        assert(syms[i] != syms.last());
    }
}

/// With distinct symbols, replacing the value of the pair at `i` is an
/// insertion at its key.
proof fn lemma_map_of_update(syms: Seq<Seq<char>>, ids: Seq<u64>, i: int, v: u64)
    requires
        syms.len() == ids.len(),
        distinct(syms),
        0 <= i < syms.len(),
    ensures
        map_of(syms, ids.update(i, v)) == map_of(syms, ids).insert(syms[i], v),
    decreases syms.len(),
{
    let n = syms.len() - 1;
    if i == n {
        assert(ids.update(i, v).drop_last() =~= ids.drop_last());
        assert(map_of(syms, ids.update(i, v)) =~= map_of(syms, ids).insert(syms[i], v));
    } else {
        assert(distinct(syms.drop_last()));
        assert(ids.update(i, v).drop_last() =~= ids.drop_last().update(i, v));
        lemma_map_of_update(syms.drop_last(), ids.drop_last(), i, v);
        assert(syms[i] != syms.last());
        assert(map_of(syms, ids.update(i, v)) =~= map_of(syms, ids).insert(syms[i], v));
    }
}

/// Appending a pair is an insertion at its key.
proof fn lemma_map_of_push(syms: Seq<Seq<char>>, ids: Seq<u64>, k: Seq<char>, v: u64)
    requires
        syms.len() == ids.len(),
    ensures
        map_of(syms.push(k), ids.push(v)) == map_of(syms, ids).insert(k, v),
{
    assert(syms.push(k).drop_last() =~= syms);
    assert(ids.push(v).drop_last() =~= ids);
}

/// With distinct symbols, the mapping has exactly one entry per pair.
proof fn lemma_map_of_dom_len(syms: Seq<Seq<char>>, ids: Seq<u64>)
    requires
        syms.len() == ids.len(),
        distinct(syms),
    ensures
        map_of(syms, ids).dom().finite(),
        map_of(syms, ids).dom().len() == syms.len(),
    decreases syms.len(),
{
    if syms.len() > 0 {
        assert(distinct(syms.drop_last()));
        lemma_map_of_dom_len(syms.drop_last(), ids.drop_last());
        lemma_map_of_contains(syms.drop_last(), ids.drop_last(), syms.last());
        assert(forall|i: int|
            0 <= i < syms.len() - 1 ==> syms.drop_last()[i] != syms.last());
        assert(!map_of(syms.drop_last(), ids.drop_last()).dom().contains(syms.last()));
    }
}

/// A directory of ticker symbols and their numeric identifiers:
/// `symbols[i]` maps to `ids[i]`, and no symbol is stored twice.
pub struct TickerDirectory {
    symbols: Vec<String>,
    ids: Vec<u64>,
}

impl View for TickerDirectory {
    type V = Map<Seq<char>, u64>;

    /// The mapping this directory holds.
    closed spec fn view(&self) -> Map<Seq<char>, u64> {
        map_of(views(self.symbols@), self.ids@)
    }
}

impl TickerDirectory {
    /// Well-formed: one identifier per symbol, and no symbol stored twice.
    pub closed spec fn wf(&self) -> bool {
        &&& self.symbols.len() == self.ids.len()
        &&& distinct(views(self.symbols@))
    }

    /// An empty directory.
    pub fn new() -> (d: TickerDirectory)
        ensures
            d.wf(),
            d@ == Map::<Seq<char>, u64>::empty(),
    {
        TickerDirectory { symbols: Vec::new(), ids: Vec::new() }
    }

    /// The number of entries.
    pub fn len(&self) -> (n: usize)
        requires
            self.wf(),
        ensures
            n == self@.dom().len(),
    {
        proof {
            lemma_map_of_dom_len(views(self.symbols@), self.ids@);
        }
        self.symbols.len()
    }

    /// Insert an entry, overwriting any earlier entry for the same symbol.
    pub fn insert(&mut self, symbol: String, id: u64)
        requires
            old(self).wf(),
        ensures
            final(self).wf(),
            final(self)@ == old(self)@.insert(symbol@, id),
    {
        let n = self.symbols.len();
        let mut i: usize = 0;
        while i < n
            invariant
                i <= n,
                n == self.symbols.len(),
                *self == *old(self),
                self.wf(),
                forall|j: int| 0 <= j < i ==> views(self.symbols@)[j] != symbol@,
            decreases n - i,
        {
            if self.symbols[i] == symbol {
                self.ids[i] = id;
                proof {
                    assert(views(self.symbols@)[i as int] == symbol@);
                    lemma_map_of_update(views(old(self).symbols@), old(self).ids@, i as int, id);
                }
                return ;
            }
            i = i + 1;
        }
        self.symbols.push(symbol);
        self.ids.push(id);
        proof {
            assert(views(self.symbols@) =~= views(old(self).symbols@).push(symbol@));
            lemma_map_of_push(views(old(self).symbols@), old(self).ids@, symbol@, id);
        }
    }
}

/// The identifier a record's second field denotes: its value as a decimal
/// numeral, or `0` when it is not one that fits in 64 bits.
pub open spec fn id_of_field(f: Seq<char>) -> u64 {
    match parse_u64_spec(f) {
        Some(v) => v,
        None => 0,
    }
}

/// One record applied to a mapping: a line of exactly two tab-separated
/// fields inserts its symbol and identifier; any other line (empty, no
/// tab, or more than one tab) changes nothing.
pub open spec fn record_map(m: Map<Seq<char>, u64>, line: Seq<char>) -> Map<Seq<char>, u64> {
    let fields = split_on(line, '\t');
    if fields.len() == 2 {
        m.insert(fields[0], id_of_field(fields[1]))
    } else {
        m
    }
}

/// The mapping a list of records denotes, first record first.
pub open spec fn feed_map(lines: Seq<Seq<char>>) -> Map<Seq<char>, u64>
    decreases lines.len(),
{
    if lines.len() == 0 {
        Map::empty()
    } else {
        record_map(feed_map(lines.drop_last()), lines.last())
    }
}

/// The mapping a whole feed text denotes: its newline-separated lines,
/// each taken as one record.
pub open spec fn parse_feed_spec(body: Seq<char>) -> Map<Seq<char>, u64> {
    feed_map(split_on(body, '\n'))
}

/// Parse a feed of newline-delimited records, each a ticker symbol and a
/// decimal identifier separated by one tab. A non-numeric or out-of-range
/// identifier field yields `0` for its symbol; a line without exactly two
/// fields is skipped; a later record for a symbol overwrites an earlier one.
pub fn parse_feed(body: &str) -> (d: TickerDirectory)
    ensures
        d.wf(),
        d@ == parse_feed_spec(body@),
{
    let lines = split_str(body, '\n');
    let mut d = TickerDirectory::new();
    let nl = lines.len();
    proof {
        assert(views(lines@).take(0) =~= Seq::<Seq<char>>::empty());
    }
    let mut i: usize = 0;
    while i < nl
        invariant
            i <= nl,
            nl == lines.len(),
            views(lines@) == split_on(body@, '\n'),
            d.wf(),
            d@ == feed_map(views(lines@).take(i as int)),
        decreases nl - i,
    {
        let ghost line_view = views(lines@)[i as int];
        let fields = split_str(lines[i].as_str(), '\t');
        proof {
            assert(views(fields@) == split_on(line_view, '\t'));
        }
        if fields.len() == 2 {
            let id = match parse_u64(fields[1].as_str()) {
                Some(v) => v,
                None => 0,
            };
            let symbol = fields[0].clone();
            proof {
                assert(symbol@ == split_on(line_view, '\t')[0]);
                assert(id == id_of_field(split_on(line_view, '\t')[1]));
            }
            d.insert(symbol, id);
        }
        proof {
            assert(views(lines@).take(i + 1).drop_last() =~= views(lines@).take(i as int));
            assert(views(lines@).take(i + 1).last() == line_view);
            assert(d@ == record_map(feed_map(views(lines@).take(i as int)), line_view));
        }
        i = i + 1;
    }
    proof {
        assert(views(lines@).take(nl as int) =~= views(lines@));
    }
    d
}

/// What a symbol lookup yields: the identifier stored under the key, or
/// the sentinel `0` when the key is absent.
pub open spec fn lookup_id_spec(m: Map<Seq<char>, u64>, k: Seq<char>) -> u64 {
    if m.dom().contains(k) {
        m[k]
    } else {
        0
    }
}

/// Whether some symbol in the mapping carries the identifier `id`.
pub open spec fn has_id(m: Map<Seq<char>, u64>, id: u64) -> bool {
    exists|k: Seq<char>| m.dom().contains(k) && m[k] == id
}

/// Look a ticker symbol up, in any case: the symbol is lower-cased and the
/// identifier stored under it returned, or `0` when it is absent.
pub fn cik(map: &TickerDirectory, ticker: &str) -> (r: u64)
    requires
        map.wf(),
    ensures
        r == lookup_id_spec(map@, lower(ticker@)),
{
    let key = to_lower(ticker);
    let n = map.symbols.len();
    let mut i: usize = 0;
    while i < n
        invariant
            i <= n,
            n == map.symbols.len(),
            map.wf(),
            key@ == lower(ticker@),
            forall|j: int| 0 <= j < i ==> views(map.symbols@)[j] != key@,
        decreases n - i,
    {
        if map.symbols[i] == key {
            proof {
                lemma_map_of_at(views(map.symbols@), map.ids@, i as int);
            }
            return map.ids[i];
        }
        i = i + 1;
    }
    proof {
        lemma_map_of_contains(views(map.symbols@), map.ids@, key@);
    }
    0
}

/// Look an identifier up: some symbol stored with the identifier `cik`,
/// or the sentinel `"none"` when there is none.
pub fn ticker(map: &TickerDirectory, cik: &u64) -> (r: String)
    requires
        map.wf(),
    ensures
        has_id(map@, *cik) ==> map@.dom().contains(r@) && map@[r@] == *cik,
        !has_id(map@, *cik) ==> r@ == "none"@,
{
    let n = map.ids.len();
    let mut i: usize = 0;
    while i < n
        invariant
            i <= n,
            n == map.ids.len(),
            map.wf(),
            forall|j: int| 0 <= j < i ==> map.ids@[j] != *cik,
        decreases n - i,
    {
        if map.ids[i] == *cik {
            proof {
                lemma_map_of_at(views(map.symbols@), map.ids@, i as int);
            }
            return map.symbols[i].clone();
        }
        i = i + 1;
    }
    proof {
        if has_id(map@, *cik) {
            let k = choose|k: Seq<char>| map@.dom().contains(k) && map@[k] == *cik;
            lemma_map_of_contains(views(map.symbols@), map.ids@, k);
            let j = choose|j: int| 0 <= j < views(map.symbols@).len() && views(map.symbols@)[j]
                == k;
            lemma_map_of_at(views(map.symbols@), map.ids@, j);
            assert(false);
        }
    }
    "none".to_owned()
}

/// Parsing is a pure function of the feed text: two independent fetches of
/// an unchanged feed yield mappings with identical key-value pairs.
pub proof fn lemma_parse_deterministic(b1: Seq<char>, b2: Seq<char>)
    requires
        b1 == b2,
    ensures
        parse_feed_spec(b1) == parse_feed_spec(b2),
{
}

/// Lookups ignore case: two symbols with the same lower-case form
/// resolve to the same identifier in any mapping.
pub proof fn lemma_lookup_ignores_case(m: Map<Seq<char>, u64>, s1: Seq<char>, s2: Seq<char>)
    requires
        lower(s1) == lower(s2),
    ensures
        lookup_id_spec(m, lower(s1)) == lookup_id_spec(m, lower(s2)),
{
}

/// Round trip: a symbol stored with identifier `id` resolves back to `id`
/// through the symbol lookup, provided the stored symbols are already
/// lower-case (as the feed provides them).
pub proof fn lemma_round_trip(m: Map<Seq<char>, u64>, id: u64, s: Seq<char>)
    requires
        forall|k: Seq<char>| m.dom().contains(k) ==> lower(k) == k,
        m.dom().contains(s),
        m[s] == id,
    ensures
        lookup_id_spec(m, lower(s)) == id,
{
    assert(lower(s) == s);
}

} // verus!
