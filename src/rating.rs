//! Per-image ratings keyed by file name, and their sidecar document.
use vstd::prelude::*;
use crate::errors::{RatingsLoadError, RatingsSaveError};
use crate::names::{lemma_name_lt_total, name_less, name_lt};
use vstd::std_specs::iter::IteratorSpec;

verus! {

/// A three-level rating; `Low` is what an image without a stored rating has.
#[derive(Debug, Clone, Copy, PartialEq, Eq, Structural)]
pub enum Rating {
    Low,
    Medium,
    High,
}

impl Rating {
    /// The level stored in the sidecar document.
    pub open spec fn level(self) -> u8 {
        match self {
            Rating::Low => 0,
            Rating::Medium => 1,
            Rating::High => 2,
        }
    }

    /// The rating for a stored level; levels above 2 count as 2.
    pub open spec fn of_level(val: u8) -> Rating {
        if val == 0 {
            Rating::Low
        } else if val == 1 {
            Rating::Medium
        } else {
            Rating::High
        }
    }

    /// The rating for a stored integer, clamped into the three levels.
    pub open spec fn of_int(val: int) -> Rating {
        if val <= 0 {
            Rating::Low
        } else if val == 1 {
            Rating::Medium
        } else {
            Rating::High
        }
    }

    /// The rating for a level read from a sidecar: at most 0 is `Low`,
    /// at least 2 is `High`.
    pub fn from_level(val: i64) -> (r: Rating)
        ensures
            r == Rating::of_int(val as int),
    {
        if val <= 0 {
            Rating::Low
        } else if val == 1 {
            Rating::Medium
        } else {
            Rating::High
        }
    }

    pub fn from_u8(val: u8) -> (r: Rating)
        ensures
            r == Rating::of_level(val),
            r == Rating::of_int(val as int),
            r.level() == if val <= 2 { val } else { 2 },
    {
        let limited = if val > 2 {
            2
        } else {
            val
        };
        if limited == 0 {
            Rating::Low
        } else if limited == 1 {
            Rating::Medium
        } else {
            Rating::High
        }
    }

    pub fn to_u8(&self) -> (r: u8)
        ensures
            r == self.level(),
            Rating::of_level(r) == *self,
    {
        match self {
            Rating::Low => 0,
            Rating::Medium => 1,
            Rating::High => 2,
        }
    }

    /// The highest level.
    pub fn max() -> (r: u8)
        ensures
            r == 2,
            forall|x: Rating| x.level() <= r,
    {
        2
    }
}

/// The names and values of a list of named entries.
pub open spec fn named<V>(v: Seq<(String, V)>) -> Seq<(Seq<char>, V)> {
    v.map_values(|e: (String, V)| (e.0@, e.1))
}

/// No name occurs twice in `s`.
pub open spec fn unique_names<V>(s: Seq<(Seq<char>, V)>) -> bool {
    forall|i: int, j: int| 0 <= i < j < s.len() ==> s[i].0 != s[j].0
}

/// `s` lists the entries of `m`, each once.
pub open spec fn lists<V>(s: Seq<(Seq<char>, V)>, m: Map<Seq<char>, V>) -> bool {
    &&& unique_names(s)
    &&& forall|i: int| 0 <= i < s.len() ==> m.contains_key(#[trigger] s[i].0) && m[s[i].0] == s[i].1
    &&& forall|k: Seq<char>| #[trigger]
        m.contains_key(k) ==> exists|i: int| 0 <= i < s.len() && s[i].0 == k
}

/// Each name comes strictly before the next.
pub open spec fn ascending<V>(s: Seq<(Seq<char>, V)>) -> bool {
    forall|i: int| 0 <= i < s.len() - 1 ==> name_lt((#[trigger] s[i]).0, s[i + 1].0)
}

/// Inserts an entry for a name that `m` lacks at its place in name order.
fn insert_in_order(
    out: &mut Vec<(String, u8)>,
    name: String,
    level: u8,
    Ghost(m): Ghost<Map<Seq<char>, u8>>,
)
    requires
        lists(named(old(out)@), m),
        ascending(named(old(out)@)),
        !m.contains_key(name@),
    ensures
        lists(named(final(out)@), m.insert(name@, level)),
        ascending(named(final(out)@)),
{
    let mut p: usize = 0;
    while p < out.len() && name_less(out[p].0.as_str(), name.as_str())
        invariant
            p <= out@.len(),
            forall|q: int| 0 <= q < p ==> name_lt(named(out@)[q].0, name@),
        decreases out@.len() - p,
    {
        p = p + 1;
    }
    let ghost before = named(out@);
    let ghost key = name@;
    assert(p < before.len() ==> !name_lt(before[p as int].0, key));
    out.insert(p, (name, level));
    proof {
        lemma_insert_in_order(before, p as int, key, level, m);
        assert(named(out@) =~= before.insert(p as int, (key, level)));
    }
}

proof fn lemma_insert_in_order(
    before: Seq<(Seq<char>, u8)>,
    p: int,
    key: Seq<char>,
    level: u8,
    m: Map<Seq<char>, u8>,
)
    requires
        lists(before, m),
        ascending(before),
        !m.contains_key(key),
        0 <= p <= before.len(),
        forall|q: int| 0 <= q < p ==> name_lt(before[q].0, key),
        p < before.len() ==> !name_lt(before[p].0, key),
    ensures
        lists(before.insert(p, (key, level)), m.insert(key, level)),
        ascending(before.insert(p, (key, level))),
{
    let after = before.insert(p, (key, level));
    let m2 = m.insert(key, level);
    assert forall|j: int| 0 <= j < after.len() implies after[j] == if j < p {
        before[j]
    } else if j == p {
        (key, level)
    } else {
        before[j - 1]
    } by {}
    assert forall|j: int| 0 <= j < before.len() implies before[j].0 != key by {
        assert(m.contains_key(before[j].0));
    }
    assert forall|i: int| 0 <= i < after.len() - 1 implies name_lt((#[trigger] after[i]).0, after[i + 1].0) by {
        if i + 1 < p {
            assert(name_lt(before[i].0, before[i + 1].0));
        } else if i + 1 == p {
        } else if i == p {
            lemma_name_lt_total(key, before[i].0);
        } else {
            assert(name_lt(before[i - 1].0, before[i].0));
        }
    }
    assert forall|a: int, b: int| 0 <= a < b < after.len() implies after[a].0 != after[b].0 by {
        let a0 = if a < p { a } else { a - 1 };
        let b0 = if b < p { b } else { b - 1 };
        if a != p && b != p {
            assert(before[a0].0 != before[b0].0);
        }
    }
    assert forall|i: int| 0 <= i < after.len() implies m2.contains_key(#[trigger] after[i].0) && m2[after[i].0]
        == after[i].1 by {
        if i < p {
            assert(m.contains_key(before[i].0));
        } else if i > p {
            assert(m.contains_key(before[i - 1].0));
        }
    }
    assert forall|k: Seq<char>| #[trigger] m2.contains_key(k) implies exists|j: int|
        0 <= j < after.len() && after[j].0 == k by {
        if k == key {
            assert(after[p as int].0 == k);
        } else {
            let j = choose|j: int| 0 <= j < before.len() && before[j].0 == k;
            if j < p {
                assert(after[j].0 == k);
            } else {
                assert(after[j + 1].0 == k);
            }
        }
    }
    }

/// A table from file name to rating.
pub struct RatingTable {
    entries: Vec<(String, Rating)>,
    model: Ghost<Map<Seq<char>, Rating>>,
}

impl View for RatingTable {
    type V = Map<Seq<char>, Rating>;

    closed spec fn view(&self) -> Map<Seq<char>, Rating> {
        self.model@
    }
}

impl RatingTable {
    pub closed spec fn wf(&self) -> bool {
        lists(named(self.entries@), self.model@)
    }

    pub fn new() -> (r: RatingTable)
        ensures
            r.wf(),
            r@ == Map::<Seq<char>, Rating>::empty(),
    {
        RatingTable { entries: Vec::new(), model: Ghost(Map::empty()) }
    }

    fn find(&self, name: &String) -> (r: Option<usize>)
        requires
            self.wf(),
        ensures
            match r {
                Some(i) => i < self.entries@.len() && self.entries@[i as int].0@ == name@,
                None => !self@.contains_key(name@),
            },
    {
        let mut i: usize = 0;
        while i < self.entries.len()
            invariant
                self.wf(),
                i <= self.entries@.len(),
                forall|j: int| 0 <= j < i ==> self.entries@[j].0@ != name@,
            decreases self.entries@.len() - i,
        {
            if self.entries[i].0 == *name {
                return Some(i);
            }
            i = i + 1;
        }
        proof {
            if self@.contains_key(name@) {
                let j = choose|j: int|
                    0 <= j < named(self.entries@).len() && named(self.entries@)[j].0 == name@;
                assert(self.entries@[j].0@ == name@);
            }
        }
        None
    }

    pub fn get(&self, name: &String) -> (r: Option<Rating>)
        requires
            self.wf(),
        ensures
            r == if self@.contains_key(name@) {
                Some(self@[name@])
            } else {
                None::<Rating>
            },
    {
        match self.find(name) {
            Some(i) => {
                assert(named(self.entries@)[i as int].0 == name@);
                Some(self.entries[i].1)
            },
            None => None,
        }
    }

    pub fn insert(&mut self, name: String, rating: Rating)
        requires
            old(self).wf(),
        ensures
            final(self).wf(),
            final(self)@ == old(self)@.insert(name@, rating),
    {
        let ghost key = name@;
        match self.find(&name) {
            Some(i) => {
                let ghost before = named(self.entries@);
                self.entries.set(i, (name, rating));
                self.model = Ghost(self.model@.insert(key, rating));
                let ghost after = named(self.entries@);
                assert(before[i as int].0 == key);
                assert forall|j: int| 0 <= j < after.len() implies after[j] == if j == i {
                    (key, rating)
                } else {
                    before[j]
                } by {}
                assert forall|j: int| 0 <= j < after.len() && j != i implies after[j].0 != key by {}
                assert forall|k: Seq<char>| #[trigger]
                    self.model@.contains_key(k) implies exists|j: int|
                    0 <= j < after.len() && after[j].0 == k by {
                    if k != key {
                        let j = choose|j: int| 0 <= j < before.len() && before[j].0 == k;
                        assert(after[j].0 == k);
                    } else {
                        assert(after[i as int].0 == k);
                    }
                }
            },
            None => {
                let ghost before = named(self.entries@);
                self.entries.push((name, rating));
                self.model = Ghost(self.model@.insert(key, rating));
                let ghost after = named(self.entries@);
                assert forall|j: int| 0 <= j < before.len() implies after[j] == before[j] by {}
                assert(after[before.len() as int].0 == key);
                assert forall|k: Seq<char>| #[trigger]
                    self.model@.contains_key(k) implies exists|j: int|
                    0 <= j < after.len() && after[j].0 == k by {
                    if k != key {
                        let j = choose|j: int| 0 <= j < before.len() && before[j].0 == k;
                        assert(after[j].0 == k);
                    } else {
                        assert(after[before.len() as int].0 == k);
                    }
                }
            },
        }
    }

    pub fn remove(&mut self, name: &String)
        requires
            old(self).wf(),
        ensures
            final(self).wf(),
            final(self)@ == old(self)@.remove(name@),
    {
        match self.find(name) {
            Some(i) => {
                let ghost before = named(self.entries@);
                let ghost key = name@;
                self.entries.remove(i);
                self.model = Ghost(self.model@.remove(key));
                let ghost after = named(self.entries@);
                assert(before[i as int].0 == key);
                assert forall|j: int| 0 <= j < after.len() implies after[j] == if j < i {
                    before[j]
                } else {
                    before[j + 1]
                } by {}
                assert forall|j: int| 0 <= j < after.len() implies after[j].0 != key by {
                    if j >= i {
                        assert(before[j + 1].0 != before[i as int].0);
                    }
                }
                assert forall|a: int, b: int| 0 <= a < b < after.len() implies after[a].0
                    != after[b].0 by {
                    let a0 = if a < i { a } else { a + 1 };
                    let b0 = if b < i { b } else { b + 1 };
                    assert(before[a0].0 != before[b0].0);
                }
                assert forall|k: Seq<char>| #[trigger]
                    self.model@.contains_key(k) implies exists|j: int|
                    0 <= j < after.len() && after[j].0 == k by {
                    let j = choose|j: int| 0 <= j < before.len() && before[j].0 == k;
                    if j < i {
                        assert(after[j].0 == k);
                    } else {
                        assert(after[j - 1].0 == k);
                    }
                }
            },
            None => {
                assert(self.model@.remove(name@) =~= self.model@);
            },
        }
    }

    /// Inserts each entry, with its level, at its place in name order.
    fn insert_levels(&self, out: &mut Vec<(String, u8)>, Ghost(m): Ghost<Map<Seq<char>, u8>>)
        requires
            self.wf(),
            lists(named(old(out)@), m),
            ascending(named(old(out)@)),
            forall|k: Seq<char>| #[trigger] self@.contains_key(k) ==> !m.contains_key(k),
        ensures
            lists(named(final(out)@), m.union_prefer_right(self@.map_values(|r: Rating| r.level()))),
            ascending(named(final(out)@)),
    {
        let ghost e = named(self.entries@);
        let ghost mut cur = m;
        let mut i: usize = 0;
        while i < self.entries.len()
            invariant
                self.wf(),
                e == named(self.entries@),
                i <= e.len(),
                lists(named(out@), cur),
                ascending(named(out@)),
                forall|k: Seq<char>| #[trigger] self@.contains_key(k) ==> !m.contains_key(k),
                forall|k: Seq<char>| #[trigger]
                    cur.contains_key(k) <==> m.contains_key(k) || exists|j: int| 0 <= j < i && e[j].0 == k,
                forall|j: int| 0 <= j < i ==> cur[#[trigger] e[j].0] == e[j].1.level(),
                forall|k: Seq<char>| #[trigger] m.contains_key(k) ==> cur[k] == m[k],
            decreases e.len() - i,
        {
            let name = self.entries[i].0.clone();
            let level = self.entries[i].1.to_u8();
            assert(e[i as int].0 == name@);
            assert(self@.contains_key(name@));
            assert(!cur.contains_key(name@)) by {
                if cur.contains_key(name@) {
                    let j = choose|j: int| 0 <= j < i && e[j].0 == name@;
                    assert(e[j].0 != e[i as int].0);
                }
            }
            insert_in_order(out, name, level, Ghost(cur));
            proof {
                let old_cur = cur;
                cur = cur.insert(e[i as int].0, level);
                assert forall|k: Seq<char>| #[trigger] cur.contains_key(k) <==> m.contains_key(k) || exists|j: int|
                    0 <= j < i + 1 && e[j].0 == k by {
                    if k == e[i as int].0 {
                        assert(0 <= i < i + 1 && e[i as int].0 == k);
                    } else if exists|j: int| 0 <= j < i + 1 && e[j].0 == k {
                        let j = choose|j: int| 0 <= j < i + 1 && e[j].0 == k;
                        assert(j < i);
                    }
                }
                assert forall|j: int| 0 <= j < i + 1 implies cur[#[trigger] e[j].0] == e[j].1.level() by {
                    if j < i {
                        assert(e[j].0 != e[i as int].0);
                    }
                }
            }
            i = i + 1;
        }
        proof {
            let target = m.union_prefer_right(self@.map_values(|r: Rating| r.level()));
            assert forall|k: Seq<char>| #[trigger] cur.contains_key(k) <==> target.contains_key(k) by {
                if self@.contains_key(k) {
                    let j = choose|j: int| 0 <= j < e.len() && e[j].0 == k;
                    assert(cur.contains_key(e[j].0));
                }
                if exists|j: int| 0 <= j < i && e[j].0 == k {
                    let j = choose|j: int| 0 <= j < i && e[j].0 == k;
                    assert(self@.contains_key(e[j].0));
                }
            }
            assert forall|k: Seq<char>| #[trigger] cur.contains_key(k) implies cur[k] == target[k] by {
                if self@.contains_key(k) {
                    let j = choose|j: int| 0 <= j < e.len() && e[j].0 == k;
                    assert(cur[e[j].0] == e[j].1.level());
                }
            }
            assert(cur =~= target);
        }
    }

}

/// Active ratings (of known images) and orphaned ratings (of names not in
/// the directory listing).
pub type RatingsModel = (Map<Seq<char>, Rating>, Map<Seq<char>, Rating>);

/// The rating of `name`: the stored one, else `Low`.
pub open spec fn rated(active: Map<Seq<char>, Rating>, name: Seq<char>) -> Rating {
    if active.contains_key(name) {
        active[name]
    } else {
        Rating::Low
    }
}

/// Storing `rating` for `name`; `Low` is stored as no entry.
pub open spec fn with_rating(
    active: Map<Seq<char>, Rating>,
    name: Seq<char>,
    rating: Rating,
) -> Map<Seq<char>, Rating> {
    if rating == Rating::Low {
        active.remove(name)
    } else {
        active.insert(name, rating)
    }
}

/// Setting a rating governs the name from then on: an orphaned entry of the
/// same name is dropped.
pub open spec fn set_in(m: RatingsModel, name: Seq<char>, rating: Rating) -> RatingsModel {
    (with_rating(m.0, name, rating), m.1.remove(name))
}

/// No active entry is `Low`, and no name is both active and orphaned.
pub open spec fn valid_model(m: RatingsModel) -> bool {
    forall|k: Seq<char>| #[trigger]
        m.0.contains_key(k) ==> m.0[k] != Rating::Low && !m.1.contains_key(k)
}

/// The name-to-level mapping that the sidecar holds: active and orphaned
/// entries together.
pub open spec fn document_of(m: RatingsModel) -> Map<Seq<char>, u8> {
    m.1.union_prefer_right(m.0).map_values(|r: Rating| r.level())
}

/// The names in `v`.
pub open spec fn names_of(v: Seq<String>) -> Set<Seq<char>> {
    Set::new(|k: Seq<char>| exists|i: int| 0 <= i < v.len() && v[i]@ == k)
}

/// Ratings read from the entries of a sidecar, in order, where `known` are
/// the names of the directory's images: a later entry of a name replaces an
/// earlier one, levels above 2 count as 2, entries of known names become
/// active ratings (a `Low` one as no entry), the others orphaned ones.
pub open spec fn loaded(known: Set<Seq<char>>, e: Seq<(Seq<char>, i64)>) -> RatingsModel
    decreases e.len(),
{
    if e.len() == 0 {
        (Map::empty(), Map::empty())
    } else {
        let prev = loaded(known, e.drop_last());
        let k = e.last().0;
        let r = Rating::of_int(e.last().1 as int);
        if known.contains(k) {
            (with_rating(prev.0, k, r), prev.1)
        } else {
            (prev.0, prev.1.insert(k, r))
        }
    }
}

/// The YAML text of a name-to-level mapping, written with its entries in
/// name order.
pub uninterp spec fn ratings_yaml(m: Map<Seq<char>, u8>) -> Seq<char>;

/// The entries of a YAML mapping from names to integers that fit in a `u8`,
/// ordered by name; `None` for any other text.
pub uninterp spec fn parsed_ratings(text: Seq<char>) -> Option<Seq<(Seq<char>, i64)>>;

/// Relies on `serde_yaml::to_string` on a `serde_yaml::Mapping`, which keeps
/// the order in which its entries were inserted: the YAML text of the mapping
/// that `entries` lists, in their order. Writing strings and integers into a
/// mapping has no error path.
#[verifier::external_body]
fn ratings_to_yaml(entries: &Vec<(String, u8)>) -> (r: Result<String, serde_yaml::Error>)
    requires
        unique_names(named(entries@)),
        ascending(named(entries@)),
    ensures
        r is Ok,
        r is Ok ==> forall|m: Map<Seq<char>, u8>|
            lists(named(entries@), m) ==> r->Ok_0@ == ratings_yaml(m),
{
    let mapping: serde_yaml::Mapping = entries
        .iter()
        .map(|e| (serde_yaml::Value::from(e.0.as_str()), serde_yaml::Value::from(e.1)))
        .collect();
    serde_yaml::to_string(&mapping)
}

/// The most columns at which a sidecar may open block collections.
pub const MAX_NESTING: usize = 48;

pub open spec fn is_line_break(c: char) -> bool {
    c == '\n' || c == '\r'
}

pub open spec fn is_indicator(c: char) -> bool {
    c == '-' || c == '?' || c == ':'
}

/// `cols` with `c` added unless it is there.
pub open spec fn add_col(cols: Seq<int>, c: int) -> Seq<int> {
    if cols.contains(c) {
        cols
    } else {
        cols.push(c)
    }
}

/// Scanning state after some text: the column of the next character; the
/// phase of the current line (0: in its leading blanks and indicators, 1: in
/// its first token, 2: past it); the column of an indicator whose following
/// character is not seen yet (-1: none); the column of the first token; and
/// the columns found so far at which a block collection may open.
pub type NestScan = (int, int, int, int, Seq<int>);

/// One character of scanning. A block collection can only open at an
/// indicator (`-`, `?`, `:`) followed by a blank among the blanks leading a
/// line, or at the first token of a line when a `:` follows on that line.
pub open spec fn nest_step(st: NestScan, c: char) -> NestScan {
    let (col, phase, pending, tok, cols) = st;
    if is_line_break(c) {
        (0, 0, -1, 0, if pending >= 0 { add_col(cols, pending) } else { cols })
    } else if phase == 0 {
        if pending >= 0 {
            if c == ' ' || c == '\t' {
                (col + 1, 0, -1, 0, add_col(cols, pending))
            } else if c == ':' {
                (col + 1, 2, -1, 0, add_col(cols, pending))
            } else {
                (col + 1, 1, -1, pending, cols)
            }
        } else if c == ' ' || c == '\t' {
            (col + 1, 0, -1, 0, cols)
        } else if is_indicator(c) {
            (col + 1, 0, col, 0, cols)
        } else if c == '#' {
            (col + 1, 2, -1, 0, cols)
        } else {
            (col + 1, 1, -1, col, cols)
        }
    } else if phase == 1 {
        if c == ':' {
            (col + 1, 2, -1, 0, add_col(cols, tok))
        } else {
            (col + 1, 1, -1, tok, cols)
        }
    } else {
        (col + 1, 2, -1, 0, cols)
    }
}

pub open spec fn nest_scan(s: Seq<char>) -> NestScan
    decreases s.len(),
{
    if s.len() == 0 {
        (0, 0, -1, 0, Seq::empty())
    } else {
        nest_step(nest_scan(s.drop_last()), s.last())
    }
}

/// The distinct columns at which a block collection may open in `s`.
pub open spec fn nest_cols(s: Seq<char>) -> Seq<int> {
    let st = nest_scan(s);
    if st.2 >= 0 {
        add_col(st.4, st.2)
    } else {
        st.4
    }
}

/// Block collections in `s` open at no more than `max` distinct columns.
/// Open block collections sit at strictly increasing columns, so this bounds
/// how deeply they nest.
pub open spec fn nesting_within(s: Seq<char>, max: nat) -> bool {
    nest_cols(s).len() <= max
}

fn add_col_exec(cols: &mut Vec<usize>, c: usize)
    ensures
        final(cols)@.len() == add_col(old(cols)@.map_values(|x: usize| x as int), c as int).len(),
        final(cols)@.map_values(|x: usize| x as int) == add_col(
            old(cols)@.map_values(|x: usize| x as int),
            c as int,
        ),
{
    let ghost v = old(cols)@.map_values(|x: usize| x as int);
    let mut k: usize = 0;
    while k < cols.len()
        invariant
            k <= cols@.len(),
            cols@ == old(cols)@,
            v == old(cols)@.map_values(|x: usize| x as int),
            forall|q: int| 0 <= q < k ==> cols@[q] != c,
        decreases cols@.len() - k,
    {
        if cols[k] == c {
            assert(v[k as int] == c as int);
            assert(v.contains(c as int));
            return;
        }
        k = k + 1;
    }
    assert(!v.contains(c as int)) by {
        if v.contains(c as int) {
            let q = choose|q: int| 0 <= q < v.len() && v[q] == c as int;
            assert(cols@[q] == c);
        }
    }
    cols.push(c);
    assert(cols@.map_values(|x: usize| x as int) =~= v.push(c as int));
}

/// Whether the block collections of `text` open at no more than
/// `MAX_NESTING` distinct columns.
pub fn nesting_fits(text: &str) -> (r: bool)
    ensures
        r == nesting_within(text@, MAX_NESTING as nat),
{
    let n = text.unicode_len();
    let mut it = text.chars();
    let ghost all = text@;
    let ghost mut i: int = 0;
    let mut col: usize = 0;
    let mut phase: u8 = 0;
    let mut has_pending = false;
    let mut pending: usize = 0;
    let mut tok: usize = 0;
    let mut cols: Vec<usize> = Vec::new();
    assert(all.take(0) =~= Seq::<char>::empty());
    assert(all.skip(0) =~= all);
    loop
        invariant
            0 <= i <= all.len(),
            all == text@,
            n == all.len(),
            it.remaining() == all.skip(i),
            it.obeys_prophetic_iter_laws(),
            col <= i,
            pending < col || !has_pending,
            tok <= col,
            ({
                let st = nest_scan(all.take(i));
                &&& st.0 == col as int
                &&& st.1 == phase as int
                &&& st.2 == if has_pending { pending as int } else { -1 }
                &&& st.3 == tok as int
                &&& st.4 == cols@.map_values(|x: usize| x as int)
            }),
        decreases all.len() - i,
    {
        let ghost before = it.remaining();
        match it.next() {
            Some(c) => {
                proof {
                    assert(before.len() > 0);
                    assert(c == all[i]);
                    assert(all.take(i + 1).drop_last() =~= all.take(i));
                    assert(all.take(i + 1).last() == c);
                    assert(all.skip(i + 1) =~= before.drop_first());
                }
                if c == '\n' || c == '\r' {
                    if has_pending {
                        add_col_exec(&mut cols, pending);
                    }
                    col = 0;
                    phase = 0;
                    has_pending = false;
                    tok = 0;
                } else {
                    if phase == 0 {
                        if has_pending {
                            if c == ' ' || c == '\t' {
                                add_col_exec(&mut cols, pending);
                                tok = 0;
                            } else if c == ':' {
                                add_col_exec(&mut cols, pending);
                                phase = 2;
                                tok = 0;
                            } else {
                                phase = 1;
                                tok = pending;
                            }
                            has_pending = false;
                        } else if c == ' ' || c == '\t' {
                            tok = 0;
                        } else if c == '-' || c == '?' || c == ':' {
                            has_pending = true;
                            pending = col;
                            tok = 0;
                        } else if c == '#' {
                            phase = 2;
                            tok = 0;
                        } else {
                            phase = 1;
                            tok = col;
                        }
                    } else if phase == 1 {
                        if c == ':' {
                            add_col_exec(&mut cols, tok);
                            phase = 2;
                            tok = 0;
                        }
                    } else {
                        tok = 0;
                    }
                    col = col + 1;
                }
                proof {
                    i = i + 1;
                }
            },
            None => {
                proof {
                    assert(i == all.len());
                    assert(all.take(i) =~= all);
                }
                if has_pending {
                    add_col_exec(&mut cols, pending);
                }
                return cols.len() <= MAX_NESTING;
            },
        }
    }
}

/// Relies on `serde_yaml::from_str` into a `BTreeMap<String, i64>`, whose
/// entries come out once per name. Its parser recurses once per nesting
/// level with no bound of its own. Flow nesting stops at 255 levels; open
/// block collections sit at strictly increasing columns, each one where an
/// indicator among a line's leading blanks, or a line's first token followed
/// by `:`, opened it. Bounding how many such columns there are bounds the
/// depth of that recursion.
#[verifier::external_body]
fn ratings_from_yaml(text: &str) -> (r: Result<Vec<(String, i64)>, serde_yaml::Error>)
    requires
        nesting_within(text@, MAX_NESTING as nat),
    ensures
        r is Ok <==> parsed_ratings(text@) is Some,
        r is Ok ==> named(r->Ok_0@) == parsed_ratings(text@)->Some_0,
        r is Ok ==> unique_names(named(r->Ok_0@)),
{
    serde_yaml::from_str::<std::collections::BTreeMap<String, i64>>(text).map(
        |m| m.into_iter().collect(),
    )
}

fn contains_name(names: &Vec<String>, name: &String) -> (r: bool)
    ensures
        r == names_of(names@).contains(name@),
{
    let mut i: usize = 0;
    while i < names.len()
        invariant
            i <= names@.len(),
            forall|j: int| 0 <= j < i ==> names@[j]@ != name@,
        decreases names@.len() - i,
    {
        if names[i] == *name {
            assert(names_of(names@).contains(name@));
            return true;
        }
        i = i + 1;
    }
    false
}

/// The ratings of one directory.
pub struct ImageRatings {
    ratings: RatingTable,
    orphaned_ratings: RatingTable,
}

impl View for ImageRatings {
    type V = RatingsModel;

    closed spec fn view(&self) -> RatingsModel {
        (self.ratings@, self.orphaned_ratings@)
    }
}

impl ImageRatings {
    pub closed spec fn wf(&self) -> bool {
        &&& self.ratings.wf()
        &&& self.orphaned_ratings.wf()
        &&& valid_model(self@)
    }

    /// The ratings read from the sidecar's text, or none if there is no
    /// sidecar; `known_images` are the names of the directory's images.
    pub fn new(known_images: &Vec<String>, file_text: Option<&str>) -> (r: Result<
        ImageRatings,
        RatingsLoadError,
    >)
        ensures
            match file_text {
                None => r is Ok && r->Ok_0@ == (
                    Map::<Seq<char>, Rating>::empty(),
                    Map::<Seq<char>, Rating>::empty(),
                ),
                Some(t) => if !nesting_within(t@, MAX_NESTING as nat) {
                    r is Err && r->Err_0 is TooDeeplyNested
                } else {
                    match parsed_ratings(t@) {
                        Some(e) => r is Ok && r->Ok_0@ == loaded(names_of(known_images@), e),
                        None => r is Err && r->Err_0 is DeserializeError,
                    }
                },
            },
            r is Ok ==> r->Ok_0.wf(),
            r is Ok ==> forall|k: Seq<char>| #[trigger]
                r->Ok_0@.1.contains_key(k) ==> !names_of(known_images@).contains(k),
    {
        match file_text {
            None => Ok(
                ImageRatings { ratings: RatingTable::new(), orphaned_ratings: RatingTable::new() },
            ),
            Some(text) => if !nesting_fits(text) {
                Err(RatingsLoadError::TooDeeplyNested)
            } else {
                match ratings_from_yaml(text) {
                    Ok(entries) => Ok(ImageRatings::from_entries(known_images, &entries)),
                    Err(e) => Err(RatingsLoadError::DeserializeError(e)),
                }
            },
        }
    }

    /// The ratings read from the entries of a sidecar, in order.
    pub fn from_entries(known_images: &Vec<String>, entries: &Vec<(String, i64)>) -> (r:
        ImageRatings)
        ensures
            r.wf(),
            r@ == loaded(names_of(known_images@), named(entries@)),
            forall|k: Seq<char>| #[trigger] r@.1.contains_key(k) ==> !names_of(known_images@).contains(k),
    {
        let ghost known = names_of(known_images@);
        let ghost e = named(entries@);
        let mut r = ImageRatings { ratings: RatingTable::new(), orphaned_ratings: RatingTable::new() };
        let mut i: usize = 0;
        assert(e.take(0) =~= Seq::<(Seq<char>, i64)>::empty());
        while i < entries.len()
            invariant
                i <= entries@.len(),
                e == named(entries@),
                known == names_of(known_images@),
                r.wf(),
                r@ == loaded(known, e.take(i as int)),
                forall|k: Seq<char>| #[trigger] r@.0.contains_key(k) ==> known.contains(k),
                forall|k: Seq<char>| #[trigger] r@.1.contains_key(k) ==> !known.contains(k),
            decreases entries@.len() - i,
        {
            let name = entries[i].0.clone();
            let rating = Rating::from_level(entries[i].1);
            assert(e.take(i + 1).drop_last() =~= e.take(i as int));
            assert(e.take(i + 1).last() == (name@, entries@[i as int].1));
            let ghost key = name@;
            let ghost prev = r@;
            if contains_name(known_images, &name) {
                if rating == Rating::Low {
                    r.ratings.remove(&name);
                } else {
                    r.ratings.insert(name, rating);
                }
                assert(r@.1 == prev.1);
            } else {
                r.orphaned_ratings.insert(name, rating);
                assert(r@.0 == prev.0);
                assert(!known.contains(key));
                assert forall|k: Seq<char>| #[trigger] r@.1.contains_key(k) implies !known.contains(
                    k,
                ) by {
                    if k != key {
                        assert(prev.1.contains_key(k));
                    }
                }
            }
            assert(valid_model(r@)) by {
                assert forall|k: Seq<char>| #[trigger] r@.0.contains_key(k) implies r@.0[k]
                    != Rating::Low && !r@.1.contains_key(k) by {
                    assert(known.contains(k));
                }
            }
            i = i + 1;
        }
        assert(e.take(i as int) =~= e);
        r
    }

    /// The rating of `img_name`: `Low` unless another is stored.
    pub fn get_rating(&self, img_name: &String) -> (r: Rating)
        requires
            self.wf(),
        ensures
            r == rated(self@.0, img_name@),
    {
        match self.ratings.get(img_name) {
            Some(r) => r,
            None => Rating::Low,
        }
    }

    /// The entries of the sidecar: each name with its level, once, in name
    /// order.
    pub fn document(&self) -> (r: Vec<(String, u8)>)
        requires
            self.wf(),
        ensures
            lists(named(r@), document_of(self@)),
            ascending(named(r@)),
    {
        let mut out: Vec<(String, u8)> = Vec::new();
        let ghost empty = Map::<Seq<char>, u8>::empty();
        self.orphaned_ratings.insert_levels(&mut out, Ghost(empty));
        let ghost orphaned = empty.union_prefer_right(
            self.orphaned_ratings@.map_values(|r: Rating| r.level()),
        );
        self.ratings.insert_levels(&mut out, Ghost(orphaned));
        assert(orphaned.union_prefer_right(self.ratings@.map_values(|r: Rating| r.level()))
            =~= document_of(self@));
        out
    }

    /// The text to write to the sidecar.
    pub fn save_ratings(&self) -> (r: Result<String, RatingsSaveError>)
        requires
            self.wf(),
        ensures
            r is Ok,
            r is Ok ==> r->Ok_0@ == ratings_yaml(document_of(self@)),
    {
        let doc = self.document();
        match ratings_to_yaml(&doc) {
            Ok(text) => Ok(text),
            Err(e) => Err(RatingsSaveError::SerializeError(e)),
        }
    }

    /// Stores `rating` for `img_name` (`Low` as no entry), and returns the
    /// text to write to the sidecar. The change stays made when that fails.
    pub fn set_rating(&mut self, img_name: String, rating: Rating) -> (r: Result<String, RatingsSaveError>)
        requires
            old(self).wf(),
        ensures
            final(self).wf(),
            final(self)@ == set_in(old(self)@, img_name@, rating),
            r is Ok,
            r is Ok ==> r->Ok_0@ == ratings_yaml(document_of(final(self)@)),
    {
        self.orphaned_ratings.remove(&img_name);
        if rating == Rating::Low {
            self.ratings.remove(&img_name);
        } else {
            self.ratings.insert(img_name, rating);
        }
        self.save_ratings()
    }
}

proof fn lemma_loaded_absent(known: Set<Seq<char>>, e: Seq<(Seq<char>, i64)>, k: Seq<char>)
    requires
        forall|i: int| 0 <= i < e.len() ==> (#[trigger] e[i]).0 != k,
    ensures
        !loaded(known, e).0.contains_key(k),
        !loaded(known, e).1.contains_key(k),
    decreases e.len(),
{
    if e.len() > 0 {
        let p = e.drop_last();
        assert forall|i: int| 0 <= i < p.len() implies (#[trigger] p[i]).0 != k by {
            assert(p[i] == e[i]);
        }
        assert(e.last() == e[e.len() - 1]);
        lemma_loaded_absent(known, p, k);
    }
}

proof fn lemma_loaded_split(known: Set<Seq<char>>, e: Seq<(Seq<char>, i64)>, k: Seq<char>)
    ensures
        loaded(known, e).0.contains_key(k) ==> known.contains(k),
        loaded(known, e).1.contains_key(k) ==> !known.contains(k),
    decreases e.len(),
{
    if e.len() > 0 {
        lemma_loaded_split(known, e.drop_last(), k);
    }
}

proof fn lemma_loaded_entry(known: Set<Seq<char>>, e: Seq<(Seq<char>, i64)>, j: int)
    requires
        unique_names(e),
        0 <= j < e.len(),
    ensures
        ({
            let k = e[j].0;
            let r = Rating::of_int(e[j].1 as int);
            let m = loaded(known, e);
            if known.contains(k) {
                rated(m.0, k) == r
            } else {
                m.1.contains_key(k) && m.1[k] == r
            }
        }),
    decreases e.len(),
{
    let p = e.drop_last();
    if j < e.len() - 1 {
        assert(p[j] == e[j]);
        assert(e.last() == e[e.len() - 1]);
        assert forall|a: int, b: int| 0 <= a < b < p.len() implies p[a].0 != p[b].0 by {
            assert(p[a] == e[a] && p[b] == e[b]);
        }
        lemma_loaded_entry(known, p, j);
    }
}

/// A rating set for an image of the directory is what loading the sidecar's
/// entries gives back for it; a `Low` rating leaves no entry in the sidecar.
pub proof fn lemma_rating_round_trip(
    m: RatingsModel,
    known: Seq<String>,
    name: Seq<char>,
    rating: Rating,
    e: Seq<(Seq<char>, i64)>,
)
    requires
        names_of(known).contains(name),
        lists(e, document_of(set_in(m, name, rating)).map_values(|l: u8| l as i64)),
    ensures
        rated(loaded(names_of(known), e).0, name) == rating,
        rating == Rating::Low ==> !document_of(set_in(m, name, rating)).contains_key(name),
{
    let d = document_of(set_in(m, name, rating)).map_values(|l: u8| l as i64);
    if rating == Rating::Low {
        assert(!d.contains_key(name));
        assert forall|i: int| 0 <= i < e.len() implies (#[trigger] e[i]).0 != name by {
            assert(d.contains_key(e[i].0));
        }
        lemma_loaded_absent(names_of(known), e, name);
    } else {
        assert(d.contains_key(name));
        let j = choose|j: int| 0 <= j < e.len() && e[j].0 == name;
        assert(e[j].1 == rating.level());
        lemma_loaded_entry(names_of(known), e, j);
    }
}

/// An entry of the sidecar whose name is not among the directory's images is
/// written back by the next save with its level (clamped into 0 to 2).
pub proof fn lemma_orphan_preserved(known: Seq<String>, e: Seq<(Seq<char>, i64)>, j: int)
    requires
        unique_names(e),
        0 <= j < e.len(),
        !names_of(known).contains(e[j].0),
    ensures
        document_of(loaded(names_of(known), e)).contains_key(e[j].0),
        document_of(loaded(names_of(known), e))[e[j].0] == if e[j].1 <= 0 {
            0
        } else if e[j].1 >= 2 {
            2
        } else {
            1u8
        },
{
    lemma_loaded_entry(names_of(known), e, j);
    lemma_loaded_split(names_of(known), e, e[j].0);
}

} // verus!
