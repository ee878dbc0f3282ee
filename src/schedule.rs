//! The cell scheduler.
//!
//! The synthesizer names each internal net after the cell that drives it and
//! numbers its cells in creation order. The schedule takes, for every hidden
//! net, the first cell whose name starts the net's name, keys it by the
//! decimal number that ends the cell's name, and sorts by that key, keeping
//! the nets' order among equal keys.
use vstd::prelude::*;
use vstd::string::*;

use crate::netlist::{Cell, Module};

verus! {

/// Why a module cannot be scheduled.
#[derive(Clone, Debug)]
pub enum RunError {
    /// No cell's name starts this hidden net's name.
    NoCell(String),
    /// This cell's name does not end in a decimal number that fits a `usize`.
    NoOrderKey(String),
}

/// One scheduled evaluation: the order key, the index of the hidden net that
/// asked for it, and the index of the cell.
pub type Entry = (usize, usize, usize);

pub open spec fn is_prefix(p: Seq<char>, s: Seq<char>) -> bool {
    p.len() <= s.len() && s.subrange(0, p.len() as int) == p
}

/// The index of the first cell whose name starts `name`.
pub open spec fn first_owner(cells: Seq<(String, Cell)>, name: Seq<char>) -> Option<int>
    decreases cells.len(),
{
    if cells.len() == 0 {
        None
    } else {
        match first_owner(cells.drop_last(), name) {
            Some(i) => Some(i),
            None => if is_prefix(cells.last().0@, name) {
                Some(cells.len() - 1)
            } else {
                None
            },
        }
    }
}

pub open spec fn is_digit(c: char) -> bool {
    '0' <= c && c <= '9'
}

/// The longest run of ASCII digits that ends `s`.
pub open spec fn digit_suffix(s: Seq<char>) -> Seq<char>
    decreases s.len(),
{
    if s.len() == 0 || !is_digit(s.last()) {
        Seq::empty()
    } else {
        digit_suffix(s.drop_last()).push(s.last())
    }
}

/// The number that a string of decimal digits spells.
pub open spec fn decimal_value(d: Seq<char>) -> nat
    decreases d.len(),
{
    if d.len() == 0 {
        0
    } else {
        10 * decimal_value(d.drop_last()) + ((d.last() as u32) - 48) as nat
    }
}

/// The order key of a cell: the number that ends its name, where there is
/// one and it fits a `usize`.
pub open spec fn order_key(name: Seq<char>) -> Option<nat> {
    let d = digit_suffix(name);
    if d.len() == 0 || decimal_value(d) > usize::MAX {
        None
    } else {
        Some(decimal_value(d))
    }
}

/// The entries asked for by the first `n` nets, or the first failure among them.
pub open spec fn entries_upto(m: Module, n: int) -> Result<Seq<Entry>, RunError>
    decreases n,
{
    if n <= 0 {
        Ok(Seq::empty())
    } else {
        match entries_upto(m, n - 1) {
            Err(e) => Err(e),
            Ok(es) => {
                let net = m.netnames@[n - 1];
                if net.1.hide_name == 0 {
                    Ok(es)
                } else {
                    match first_owner(m.cells@, net.0@) {
                        None => Err(RunError::NoCell(net.0)),
                        Some(c) => match order_key(m.cells@[c].0@) {
                            None => Err(RunError::NoOrderKey(m.cells@[c].0)),
                            Some(k) => Ok(es.push((k as usize, (n - 1) as usize, c as usize))),
                        },
                    }
                }
            },
        }
    }
}

/// `a` runs before `b`: a smaller key, or an equal key and an earlier net.
pub open spec fn runs_before(a: Entry, b: Entry) -> bool {
    a.0 < b.0 || (a.0 == b.0 && a.1 < b.1)
}

/// Where `e` goes in `s`: before the first entry that it runs before.
pub open spec fn insert_pos(s: Seq<Entry>, e: Entry) -> int
    decreases s.len(),
{
    if s.len() == 0 || runs_before(e, s[0]) {
        0
    } else {
        1 + insert_pos(s.drop_first(), e)
    }
}

/// Insertion sort by `runs_before`.
pub open spec fn sorted_entries(s: Seq<Entry>) -> Seq<Entry>
    decreases s.len(),
{
    if s.len() == 0 {
        s
    } else {
        let t = sorted_entries(s.drop_last());
        t.insert(insert_pos(t, s.last()), s.last())
    }
}

/// The module's schedule: the indices of the cells to evaluate, in order.
pub open spec fn schedule_of(m: Module) -> Result<Seq<usize>, RunError> {
    match entries_upto(m, m.netnames@.len() as int) {
        Err(e) => Err(e),
        Ok(es) => Ok(sorted_entries(es).map_values(|e: Entry| e.2)),
    }
}

/// Whether `p` starts `s`.
pub fn has_prefix(s: &str, p: &str) -> (r: bool)
    ensures
        r == is_prefix(p@, s@),
{
    let n = p.unicode_len();
    let m = s.unicode_len();
    if n > m {
        return false;
    }
    let mut i: usize = 0;
    while i < n
        invariant
            i <= n <= m,
            n == p@.len(),
            m == s@.len(),
            forall|j: int| 0 <= j < i ==> s@[j] == p@[j],
        decreases n - i,
    {
        if s.get_char(i) != p.get_char(i) {
            return false;
        }
        i = i + 1;
    }
    assert(s@.subrange(0, n as int) == p@);
    true
}

/// Relies on regex::Regex::new and Regex::find: the pattern `[0-9]+$`
/// matches, leftmost first, the longest run of ASCII digits that ends the
/// text, and nothing where the text does not end in a digit.
#[verifier::external_body]
fn find_trailing_digits(pattern: &str, text: &str) -> (r: Option<String>)
    requires
        pattern@ == seq!['[', '0', '-', '9', ']', '+', '$'],
    ensures
        match r {
            Some(d) => d@ == digit_suffix(text@) && d@.len() > 0,
            None => digit_suffix(text@).len() == 0,
        },
{
    regex::Regex::new(pattern).unwrap().find(text).map(|m| m.as_str().to_string())
}

proof fn lemma_digit_suffix(s: Seq<char>)
    ensures
        forall|j: int| 0 <= j < digit_suffix(s).len() ==> is_digit(#[trigger] digit_suffix(s)[j]),
    decreases s.len(),
{
    if s.len() > 0 && is_digit(s.last()) {
        lemma_digit_suffix(s.drop_last());
        let t = digit_suffix(s.drop_last());
        assert forall|j: int| 0 <= j < digit_suffix(s).len() implies is_digit(
            #[trigger] digit_suffix(s)[j],
        ) by {
            if j < t.len() {
                assert(digit_suffix(s)[j] == t[j]);
            }
        }
    }
}

proof fn lemma_decimal_prefix(d: Seq<char>, i: int)
    requires
        0 <= i <= d.len(),
    ensures
        decimal_value(d.subrange(0, i)) <= decimal_value(d),
    decreases d.len() - i,
{
    if i < d.len() {
        lemma_decimal_prefix(d, i + 1);
        assert(d.subrange(0, i + 1).drop_last() == d.subrange(0, i));
    } else {
        assert(d.subrange(0, i) == d);
    }
}

/// The number that the digits spell, where it fits a `usize`.
pub fn parse_decimal(d: &str) -> (r: Option<usize>)
    requires
        forall|j: int| 0 <= j < d@.len() ==> is_digit(#[trigger] d@[j]),
    ensures
        r == if decimal_value(d@) <= usize::MAX {
            Some(decimal_value(d@) as usize)
        } else {
            None::<usize>
        },
{
    let n = d.unicode_len();
    let mut v: usize = 0;
    let mut i: usize = 0;
    while i < n
        invariant
            i <= n == d@.len(),
            forall|j: int| 0 <= j < d@.len() ==> is_digit(#[trigger] d@[j]),
            v == decimal_value(d@.subrange(0, i as int)),
        decreases n - i,
    {
        let c = d.get_char(i);
        let digit = ((c as u32) - 48) as usize;
        proof {
            assert(d@.subrange(0, i + 1).drop_last() == d@.subrange(0, i as int));
            assert(d@.subrange(0, i + 1).last() == c);
        }
        match v.checked_mul(10) {
            None => {
                proof {
                    lemma_decimal_prefix(d@, i + 1);
                }
                return None;
            },
            Some(t) => match t.checked_add(digit) {
                None => {
                    proof {
                        lemma_decimal_prefix(d@, i + 1);
                    }
                    return None;
                },
                Some(u) => {
                    v = u;
                },
            },
        }
        i = i + 1;
    }
    assert(d@.subrange(0, n as int) == d@);
    Some(v)
}

/// The order key of the cell named `name`.
fn cell_order_key(name: &String) -> (r: Option<usize>)
    ensures
        match r {
            Some(k) => order_key(name@) == Some(k as nat),
            None => order_key(name@) is None,
        },
{
    let pattern = "[0-9]+$";
    proof {
        reveal_strlit("[0-9]+$");
        assert(pattern@ =~= seq!['[', '0', '-', '9', ']', '+', '$']);
    }
    match find_trailing_digits(pattern, name.as_str()) {
        None => None,
        Some(digits) => {
            proof {
                lemma_digit_suffix(name@);
            }
            parse_decimal(digits.as_str())
        },
    }
}

proof fn lemma_first_owner_extend(cells: Seq<(String, Cell)>, name: Seq<char>, k: int)
    requires
        0 <= k <= cells.len(),
        first_owner(cells.subrange(0, k), name) is Some,
    ensures
        first_owner(cells, name) == first_owner(cells.subrange(0, k), name),
    decreases cells.len() - k,
{
    if k < cells.len() {
        assert(cells.subrange(0, k + 1).drop_last() == cells.subrange(0, k));
        lemma_first_owner_extend(cells, name, k + 1);
    } else {
        assert(cells.subrange(0, k) == cells);
    }
}

/// The index of the first cell whose name starts `name`.
fn find_owner(cells: &Vec<(String, Cell)>, name: &String) -> (r: Option<usize>)
    ensures
        match r {
            Some(i) => first_owner(cells@, name@) == Some(i as int) && i < cells@.len(),
            None => first_owner(cells@, name@) is None,
        },
{
    let mut i: usize = 0;
    while i < cells.len()
        invariant
            i <= cells@.len(),
            first_owner(cells@.subrange(0, i as int), name@) is None,
        decreases cells@.len() - i,
    {
        proof {
            assert(cells@.subrange(0, i + 1).drop_last() == cells@.subrange(0, i as int));
        }
        if has_prefix(name.as_str(), cells[i].0.as_str()) {
            proof {
                lemma_first_owner_extend(cells@, name@, i + 1);
            }
            return Some(i);
        }
        i = i + 1;
    }
    assert(cells@.subrange(0, i as int) == cells@);
    None
}

proof fn lemma_entries_fail(m: Module, k: int, n: int)
    requires
        0 <= k <= n,
        entries_upto(m, k) is Err,
    ensures
        entries_upto(m, n) == entries_upto(m, k),
    decreases n - k,
{
    if k < n {
        lemma_entries_fail(m, k, n - 1);
    }
}

/// The entries that the module's hidden nets ask for, in net order.
fn collect_entries(m: &Module) -> (r: Result<Vec<Entry>, RunError>)
    ensures
        match r {
            Ok(v) => entries_upto(*m, m.netnames@.len() as int) == Ok::<_, RunError>(v@),
            Err(e) => entries_upto(*m, m.netnames@.len() as int) == Err::<Seq<Entry>, _>(e),
        },
{
    let mut es: Vec<Entry> = Vec::new();
    let mut i: usize = 0;
    while i < m.netnames.len()
        invariant
            i <= m.netnames@.len(),
            entries_upto(*m, i as int) == Ok::<_, RunError>(es@),
        decreases m.netnames@.len() - i,
    {
        let net = &m.netnames[i];
        assert(m.netnames@[i as int] == *net);
        if net.1.hide_name != 0 {
            match find_owner(&m.cells, &net.0) {
                None => {
                    let e = RunError::NoCell(net.0.clone());
                    proof {
                        lemma_entries_fail(*m, i + 1, m.netnames@.len() as int);
                    }
                    return Err(e);
                },
                Some(c) => match cell_order_key(&m.cells[c].0) {
                    None => {
                        let e = RunError::NoOrderKey(m.cells[c].0.clone());
                        proof {
                            lemma_entries_fail(*m, i + 1, m.netnames@.len() as int);
                        }
                        return Err(e);
                    },
                    Some(k) => {
                        es.push((k, i, c));
                    },
                },
            }
        }
        i = i + 1;
    }
    Ok(es)
}

/// Where `e` goes in `s`.
fn find_insert_pos(s: &Vec<Entry>, e: Entry) -> (p: usize)
    ensures
        p == insert_pos(s@, e),
{
    let mut p: usize = 0;
    assert(s@.subrange(0, s@.len() as int) == s@);
    while p < s.len()
        invariant
            p <= s@.len(),
            insert_pos(s@, e) == p + insert_pos(s@.subrange(p as int, s@.len() as int), e),
        decreases s@.len() - p,
    {
        let t = s[p];
        let ghost rest = s@.subrange(p as int, s@.len() as int);
        assert(rest[0] == t);
        if e.0 < t.0 || (e.0 == t.0 && e.1 < t.1) {
            return p;
        }
        assert(rest.drop_first() == s@.subrange(p + 1, s@.len() as int));
        p = p + 1;
    }
    p
}

/// The entries sorted by `runs_before`, equal entries keeping their order.
fn sort_entries(v: &Vec<Entry>) -> (r: Vec<Entry>)
    ensures
        r@ == sorted_entries(v@),
{
    let mut out: Vec<Entry> = Vec::new();
    let mut i: usize = 0;
    while i < v.len()
        invariant
            i <= v@.len(),
            out@ == sorted_entries(v@.subrange(0, i as int)),
        decreases v@.len() - i,
    {
        let e = v[i];
        let p = find_insert_pos(&out, e);
        proof {
            assert(v@.subrange(0, i + 1).drop_last() == v@.subrange(0, i as int));
            assert(v@.subrange(0, i + 1).last() == e);
            assert(0 <= p <= out@.len()) by {
                lemma_insert_pos_bounds(out@, e);
            }
        }
        out.insert(p, e);
        i = i + 1;
    }
    assert(v@.subrange(0, i as int) == v@);
    out
}

proof fn lemma_insert_pos_bounds(s: Seq<Entry>, e: Entry)
    ensures
        0 <= insert_pos(s, e) <= s.len(),
    decreases s.len(),
{
    if s.len() > 0 && !runs_before(e, s[0]) {
        lemma_insert_pos_bounds(s.drop_first(), e);
    }
}

impl Module {
    /// The cells to evaluate, as indices into `cells`, in evaluation order; or
    /// the first hidden net, in net order, that names no cell or whose cell
    /// has no order key.
    pub fn schedule(&self) -> (r: Result<Vec<usize>, RunError>)
        ensures
            match r {
                Ok(v) => schedule_of(*self) == Ok::<_, RunError>(v@),
                Err(e) => schedule_of(*self) == Err::<Seq<usize>, _>(e),
            },
    {
        let es = match collect_entries(self) {
            Err(e) => {
                return Err(e);
            },
            Ok(es) => es,
        };
        let sorted = sort_entries(&es);
        let mut order: Vec<usize> = Vec::new();
        let mut k: usize = 0;
        while k < sorted.len()
            invariant
                k <= sorted@.len(),
                order@ == sorted@.subrange(0, k as int).map_values(|e: Entry| e.2),
            decreases sorted@.len() - k,
        {
            order.push(sorted[k].2);
            proof {
                assert(sorted@.subrange(0, k + 1).map_values(|e: Entry| e.2)
                    == sorted@.subrange(0, k as int).map_values(|e: Entry| e.2).push(sorted@[k as int].2));
            }
            k = k + 1;
        }
        assert(sorted@.subrange(0, k as int) == sorted@);
        Ok(order)
    }
}

proof fn lemma_first_owner_bound(cells: Seq<(String, Cell)>, name: Seq<char>)
    ensures
        first_owner(cells, name) matches Some(i) ==> 0 <= i < cells.len(),
    decreases cells.len(),
{
    if cells.len() > 0 {
        lemma_first_owner_bound(cells.drop_last(), name);
    }
}

proof fn lemma_entries_within(m: Module, n: int)
    ensures
        entries_upto(m, n) matches Ok(es) ==> forall|j: int|
            0 <= j < es.len() ==> (#[trigger] es[j]).2 < m.cells@.len(),
    decreases n,
{
    if n > 0 {
        lemma_entries_within(m, n - 1);
        lemma_first_owner_bound(m.cells@, m.netnames@[n - 1].0@);
    }
}

proof fn lemma_sorted_entries_within(s: Seq<Entry>, bound: nat)
    requires
        forall|j: int| 0 <= j < s.len() ==> (#[trigger] s[j]).2 < bound,
    ensures
        sorted_entries(s).len() == s.len(),
        forall|j: int| 0 <= j < s.len() ==> (#[trigger] sorted_entries(s)[j]).2 < bound,
    decreases s.len(),
{
    if s.len() > 0 {
        let t = sorted_entries(s.drop_last());
        lemma_sorted_entries_within(s.drop_last(), bound);
        lemma_insert_pos_bounds(t, s.last());
        let p = insert_pos(t, s.last());
        assert forall|j: int| 0 <= j < s.len() implies (#[trigger] sorted_entries(s)[j]).2
            < bound by {
            if j < p {
                assert(sorted_entries(s)[j] == t[j]);
            } else if j > p {
                assert(sorted_entries(s)[j] == t[j - 1]);
            }
        }
    }
}

/// Every scheduled index names a cell of the module.
pub proof fn lemma_schedule_within(m: Module, order: Seq<usize>)
    requires
        schedule_of(m) == Ok::<_, RunError>(order),
    ensures
        forall|j: int| 0 <= j < order.len() ==> order[j] < m.cells@.len(),
{
    lemma_entries_within(m, m.netnames@.len() as int);
    let es = entries_upto(m, m.netnames@.len() as int)->Ok_0;
    lemma_sorted_entries_within(es, m.cells@.len());
    assert forall|j: int| 0 <= j < order.len() implies order[j] < m.cells@.len() by {
        assert(order[j] == sorted_entries(es)[j].2);
    }
}

} // verus!
