//! Position-tracking actor state: per-ticker accumulated purchase amounts,
//! and the serialized snapshot of those holdings.

use vstd::prelude::*;
use vstd::string::StringExecFns;

verus! {

/// The character for one decimal digit.
pub open spec fn digit_char(d: nat) -> char {
    if d == 0 {
        '0'
    } else if d == 1 {
        '1'
    } else if d == 2 {
        '2'
    } else if d == 3 {
        '3'
    } else if d == 4 {
        '4'
    } else if d == 5 {
        '5'
    } else if d == 6 {
        '6'
    } else if d == 7 {
        '7'
    } else if d == 8 {
        '8'
    } else {
        '9'
    }
}

/// Decimal digits of `n`, most significant first; empty for `0`.
pub open spec fn dec_digits(n: nat) -> Seq<char>
    decreases n,
{
    if n == 0 {
        Seq::empty()
    } else {
        dec_digits(n / 10).push(digit_char(n % 10))
    }
}

/// Decimal rendering of a non-negative value.
pub open spec fn dec_seq_nat(n: nat) -> Seq<char> {
    if n == 0 {
        seq!['0']
    } else {
        dec_digits(n)
    }
}

/// Decimal rendering of a signed value.
pub open spec fn dec_seq(v: int) -> Seq<char> {
    if v < 0 {
        seq!['-'] + dec_seq_nat((-v) as nat)
    } else {
        dec_seq_nat(v as nat)
    }
}

/// Characters for a sequence of digit values collected least significant
/// first, rendered most significant first.
spec fn digits_seq(ds: Seq<u64>) -> Seq<char>
    decreases ds.len(),
{
    if ds.len() == 0 {
        Seq::empty()
    } else {
        seq![digit_char(ds.last() as nat)] + digits_seq(ds.drop_last())
    }
}

proof fn lemma_digits_seq(ds: Seq<u64>)
    ensures
        digits_seq(ds).len() == ds.len(),
        forall|i: int|
            0 <= i < ds.len() ==> digits_seq(ds)[i] == digit_char(
                ds[ds.len() - 1 - i] as nat,
            ),
    decreases ds.len(),
{
    if ds.len() > 0 {
        lemma_digits_seq(ds.drop_last());
    }
}

/// The one-character string for a decimal digit.
fn digit_str(d: u64) -> (r: &'static str)
    requires
        d < 10,
    ensures
        r@ == seq![digit_char(d as nat)],
{
    proof {
        reveal_strlit("0");
        reveal_strlit("1");
        reveal_strlit("2");
        reveal_strlit("3");
        reveal_strlit("4");
        reveal_strlit("5");
        reveal_strlit("6");
        reveal_strlit("7");
        reveal_strlit("8");
        reveal_strlit("9");
    }
    if d == 0 {
        proof {
            assert(("0")@ =~= seq!['0']);
        }
        "0"
    } else if d == 1 {
        proof {
            assert(("1")@ =~= seq!['1']);
        }
        "1"
    } else if d == 2 {
        proof {
            assert(("2")@ =~= seq!['2']);
        }
        "2"
    } else if d == 3 {
        proof {
            assert(("3")@ =~= seq!['3']);
        }
        "3"
    } else if d == 4 {
        proof {
            assert(("4")@ =~= seq!['4']);
        }
        "4"
    } else if d == 5 {
        proof {
            assert(("5")@ =~= seq!['5']);
        }
        "5"
    } else if d == 6 {
        proof {
            assert(("6")@ =~= seq!['6']);
        }
        "6"
    } else if d == 7 {
        proof {
            assert(("7")@ =~= seq!['7']);
        }
        "7"
    } else if d == 8 {
        proof {
            assert(("8")@ =~= seq!['8']);
        }
        "8"
    } else {
        proof {
            assert(("9")@ =~= seq!['9']);
        }
        "9"
    }
}

/// Decimal rendering of a signed fixed-point amount.
fn i64_to_string(n: i64) -> (s: String)
    ensures
        s@ == dec_seq(n as int),
{
    let mut s = String::new();
    let mut m: u64 = 0;
    if n < 0 {
        s.append("-");
        let p: i64 = -(n + 1);
        m = (p as u64) + 1;
        proof {
            reveal_strlit("-");
            assert(s@ =~= seq!['-']);
            assert(m as int == -(n as int));
        }
    } else {
        m = n as u64;
    }
    let ghost m0: nat = m as nat;
    let ghost base: Seq<char> = s@;
    let mut digits: Vec<u64> = Vec::new();
    let mut x: u64 = m;
    proof {
        assert(dec_digits(m0) =~= dec_digits(x as nat) + digits_seq(digits@));
    }
    while x > 0
        invariant
            dec_digits(m0) == dec_digits(x as nat) + digits_seq(digits@),
            forall|j: int| 0 <= j < digits@.len() ==> digits@[j] < 10,
            s@ == base,
            x == 0 ==> digits@.len() > 0 || m0 == 0,
            m0 == 0 ==> x == 0 && digits@.len() == 0,
        decreases x,
    {
        let ghost ds0 = digits@;
        let ghost x_old: nat = x as nat;
        let d: u64 = x % 10;
        digits.push(d);
        x = x / 10;
        proof {
            assert(digits@.drop_last() =~= ds0);
            assert(digits@.last() == d);
            assert(digits_seq(digits@) =~= seq![digit_char(d as nat)] + digits_seq(ds0));
            assert(dec_digits(x_old) == dec_digits(x_old / 10).push(digit_char(x_old % 10)));
            assert(dec_digits(x_old / 10).push(digit_char(x_old % 10)) + digits_seq(ds0)
                =~= dec_digits(x_old / 10) + (seq![digit_char(d as nat)] + digits_seq(ds0)));
        }
    }
    if digits.len() == 0 {
        s.append("0");
        proof {
            reveal_strlit("0");
            assert(("0")@ =~= seq!['0']);
            assert(s@ =~= base + seq!['0']);
        }
    } else {
        proof {
            lemma_digits_seq(digits@);
            assert(Seq::<char>::empty() + digits_seq(digits@) =~= digits_seq(digits@));
            assert(digits_seq(digits@).take(0) =~= Seq::<char>::empty());
            assert(base + digits_seq(digits@).take(0) =~= base);
        }
        let mut i: usize = 0;
        while i < digits.len()
            invariant
                i <= digits@.len(),
                digits_seq(digits@).len() == digits@.len(),
                forall|j: int| 0 <= j < digits@.len() ==> digits@[j] < 10,
                forall|j: int|
                    0 <= j < digits@.len() ==> digits_seq(digits@)[j] == digit_char(
                        digits@[digits@.len() - 1 - j] as nat,
                    ),
                s@ == base + digits_seq(digits@).take(i as int),
            decreases digits@.len() - i,
        {
            let idx: usize = digits.len() - 1 - i;
            let c = digit_str(digits[idx]);
            s.append(c);
            proof {
                assert(digits_seq(digits@).take(i as int + 1) =~= digits_seq(digits@).take(
                    i as int,
                ).push(digits_seq(digits@)[i as int]));
                assert(s@ =~= base + digits_seq(digits@).take(i as int + 1));
            }
            i = i + 1;
        }
        proof {
            assert(digits_seq(digits@).take(digits@.len() as int) =~= digits_seq(digits@));
        }
    }
    proof {
        if n >= 0 {
            assert(base =~= Seq::<char>::empty());
            if m0 == 0 {
                assert(s@ =~= dec_seq(n as int));
            } else {
                assert(dec_digits(m0) =~= digits_seq(digits@));
                assert(s@ =~= dec_seq(n as int));
            }
        } else {
            assert(m0 > 0);
            assert(dec_digits(m0) =~= digits_seq(digits@));
            assert(s@ =~= seq!['-'] + dec_seq_nat(m0));
            assert(s@ =~= dec_seq(n as int));
        }
    }
    s
}

/// Command understood by the tracker: record a purchase of an amount for a
/// ticker, or get a serialized snapshot of the holdings.
#[allow(non_camel_case_types)]
#[derive(Debug, Clone)]
pub enum Order {
    BUY(String, i64),
    GET,
}

/// A message in the tracker actor's mailbox. The reply slot that carries a
/// snapshot back to the requester is part of the channel layer, not of the
/// state machine itself.
pub struct TrackerMessage {
    pub command: Order,
}

/// The tracker actor's owned state: holdings as an association list from
/// ticker to accumulated amount, with unique keys, in first-insertion order.
pub struct TrackerActor {
    pub db: Vec<(String, i64)>,
}

/// Index of the first entry with key `k`, or `-1` when no entry has it.
pub open spec fn find_index(entries: Seq<(Seq<char>, int)>, k: Seq<char>) -> int
    decreases entries.len(),
{
    if entries.len() == 0 {
        -1
    } else if entries[0].0 == k {
        0
    } else {
        let r = find_index(entries.drop_first(), k);
        if r == -1 {
            -1
        } else {
            r + 1
        }
    }
}

/// Amount held for ticker `k`: the recorded value, or `0` when absent.
pub open spec fn value_of(entries: Seq<(Seq<char>, int)>, k: Seq<char>) -> int {
    if find_index(entries, k) == -1 {
        0
    } else {
        entries[find_index(entries, k)].1
    }
}

/// Serialized form of one holdings entry.
pub open spec fn render_entry(k: Seq<char>, v: int) -> Seq<char> {
    k + ": "@ + dec_seq(v) + ";"@
}

/// Concatenated serialization of the entries, in order.
pub open spec fn render_entries(entries: Seq<(Seq<char>, int)>) -> Seq<char>
    decreases entries.len(),
{
    if entries.len() == 0 {
        Seq::empty()
    } else {
        render_entries(entries.drop_last()) + render_entry(entries.last().0, entries.last().1)
    }
}

/// The whole snapshot: the serialized entries, then the trailing newline
/// marker. An empty holdings map yields just the marker.
pub open spec fn render_state(entries: Seq<(Seq<char>, int)>) -> Seq<char> {
    render_entries(entries) + "\n"@
}

/// Effect of recording one purchase of `a` for ticker `t` on the holdings:
/// the ticker's entry is increased by `a` in place, or appended with value
/// `a` when the ticker is new.
pub open spec fn record_spec(
    entries: Seq<(Seq<char>, int)>,
    t: Seq<char>,
    a: int,
) -> Seq<(Seq<char>, int)> {
    let i = find_index(entries, t);
    if i == -1 {
        entries.push((t, a))
    } else {
        entries.update(i, (t, entries[i].1 + a))
    }
}

/// `find_index` returns the index of the first entry whose key is `k`.
proof fn lemma_find_index_of(entries: Seq<(Seq<char>, int)>, k: Seq<char>, i: int)
    requires
        0 <= i < entries.len(),
        forall|j: int| 0 <= j < i ==> entries[j].0 != k,
        entries[i].0 == k,
    ensures
        find_index(entries, k) == i,
    decreases i,
{
    if i > 0 {
        lemma_find_index_of(entries.drop_first(), k, i - 1);
    }
}

/// When no entry has key `k`, `find_index` reports `-1`.
proof fn lemma_find_index_none(entries: Seq<(Seq<char>, int)>, k: Seq<char>)
    requires
        forall|j: int| 0 <= j < entries.len() ==> entries[j].0 != k,
    ensures
        find_index(entries, k) == -1,
    decreases entries.len(),
{
    if entries.len() > 0 {
        lemma_find_index_none(entries.drop_first(), k);
    }
}

/// What a non-negative `find_index` result says: it is in range, its entry
/// has key `k`, and no earlier entry does; `-1` means no entry has key `k`.
proof fn lemma_find_index_props(entries: Seq<(Seq<char>, int)>, k: Seq<char>)
    ensures
        find_index(entries, k) == -1 ==> forall|j: int|
            0 <= j < entries.len() ==> entries[j].0 != k,
        find_index(entries, k) != -1 ==> 0 <= find_index(entries, k) < entries.len()
            && entries[find_index(entries, k)].0 == k && forall|j: int|
            0 <= j < find_index(entries, k) ==> entries[j].0 != k,
    decreases entries.len(),
{
    if entries.len() > 0 && entries[0].0 != k {
        let rest = entries.drop_first();
        lemma_find_index_props(rest, k);
        let r = find_index(rest, k);
        if r == -1 {
            assert forall|j: int| 0 <= j < entries.len() implies entries[j].0 != k by {
                if j > 0 {
                    assert(entries[j].0 == rest[j - 1].0);
                }
            }
        } else {
            assert(entries[r + 1].0 == rest[r].0);
            assert forall|j: int| 0 <= j < r + 1 implies entries[j].0 != k by {
                if j > 0 {
                    assert(entries[j].0 == rest[j - 1].0);
                }
            }
        }
    }
}

/// Sum of the amounts that a sequence of purchase commands records for
/// ticker `t`.
pub open spec fn sum_for(cs: Seq<(Seq<char>, int)>, t: Seq<char>) -> int
    decreases cs.len(),
{
    if cs.len() == 0 {
        0
    } else {
        sum_for(cs.drop_last(), t) + (if cs.last().0 == t {
            cs.last().1
        } else {
            0
        })
    }
}

/// Holdings after recording a sequence of purchase commands in order,
/// starting from the given holdings.
pub open spec fn apply_commands(
    entries: Seq<(Seq<char>, int)>,
    cs: Seq<(Seq<char>, int)>,
) -> Seq<(Seq<char>, int)>
    decreases cs.len(),
{
    if cs.len() == 0 {
        entries
    } else {
        record_spec(apply_commands(entries, cs.drop_last()), cs.last().0, cs.last().1)
    }
}

proof fn lemma_find_index_push(entries: Seq<(Seq<char>, int)>, x: (Seq<char>, int), k: Seq<char>)
    ensures
        find_index(entries, k) != -1 ==> find_index(entries.push(x), k) == find_index(entries, k),
        find_index(entries, k) == -1 && x.0 == k ==> find_index(entries.push(x), k)
            == entries.len() as int,
        find_index(entries, k) == -1 && x.0 != k ==> find_index(entries.push(x), k) == -1,
    decreases entries.len(),
{
    if entries.len() == 0 {
        assert(entries.push(x)[0] == x);
        assert(entries.push(x).drop_first() =~= Seq::<(Seq<char>, int)>::empty());
        assert(find_index(entries, k) == -1);
        if x.0 == k {
            assert(find_index(entries.push(x), k) == 0);
        } else {
            assert(find_index(entries.push(x).drop_first(), k) == -1);
            assert(find_index(entries.push(x), k) == -1);
        }
    } else {
        assert(entries.push(x)[0] == entries[0]);
        assert(entries.push(x).drop_first() =~= entries.drop_first().push(x));
        lemma_find_index_push(entries.drop_first(), x, k);
        lemma_find_index_props(entries.drop_first(), k);
    }
}

proof fn lemma_find_index_update_same_key(
    entries: Seq<(Seq<char>, int)>,
    i: int,
    x: (Seq<char>, int),
    k: Seq<char>,
)
    requires
        0 <= i < entries.len(),
        x.0 == entries[i].0,
    ensures
        find_index(entries.update(i, x), k) == find_index(entries, k),
    decreases entries.len(),
{
    if i == 0 {
        assert(entries.update(0, x)[0] == x);
        assert(entries.update(0, x).drop_first() =~= entries.drop_first());
    } else {
        assert(entries.update(i, x)[0] == entries[0]);
        assert(entries.update(i, x).drop_first() =~= entries.drop_first().update(i - 1, x));
        lemma_find_index_update_same_key(entries.drop_first(), i - 1, x, k);
    }
}

/// Recording one purchase changes the held value for its own ticker by its
/// amount and leaves every other ticker's value alone.
proof fn lemma_value_of_record(entries: Seq<(Seq<char>, int)>, t0: Seq<char>, a: int, t: Seq<char>)
    ensures
        value_of(record_spec(entries, t0, a), t) == value_of(entries, t) + (if t == t0 {
            a
        } else {
            0
        }),
{
    lemma_find_index_props(entries, t0);
    lemma_find_index_props(entries, t);
    let i = find_index(entries, t0);
    if i == -1 {
        lemma_find_index_push(entries, (t0, a), t);
    } else {
        lemma_find_index_update_same_key(entries, i, (t0, entries[i].1 + a), t);
    }
}

/// Aggregation correctness: after recording a sequence of purchase
/// commands, the value held for any ticker is the value it started with
/// plus the sum of the recorded amounts for that ticker.
pub proof fn lemma_aggregation(entries: Seq<(Seq<char>, int)>, cs: Seq<(Seq<char>, int)>, t: Seq<char>)
    ensures
        value_of(apply_commands(entries, cs), t) == value_of(entries, t) + sum_for(cs, t),
    decreases cs.len(),
{
    if cs.len() > 0 {
        lemma_aggregation(entries, cs.drop_last(), t);
        lemma_value_of_record(apply_commands(entries, cs.drop_last()), cs.last().0, cs.last().1, t);
    }
}

proof fn lemma_sum_for_remove(cs: Seq<(Seq<char>, int)>, i: int, t: Seq<char>)
    requires
        0 <= i < cs.len(),
    ensures
        sum_for(cs.remove(i), t) == sum_for(cs, t) - (if cs[i].0 == t {
            cs[i].1
        } else {
            0
        }),
    decreases cs.len(),
{
    if i == cs.len() - 1 {
        assert(cs.remove(i) =~= cs.drop_last());
    } else {
        assert(cs.remove(i).drop_last() =~= cs.drop_last().remove(i));
        assert(cs.remove(i).last() == cs.last());
        lemma_sum_for_remove(cs.drop_last(), i, t);
    }
}

/// Delivery-order independence: two command sequences that hold the same
/// commands, however interleaved, record the same total for every ticker.
pub proof fn lemma_sum_any_order(cs1: Seq<(Seq<char>, int)>, cs2: Seq<(Seq<char>, int)>, t: Seq<char>)
    requires
        cs1.to_multiset() == cs2.to_multiset(),
    ensures
        sum_for(cs1, t) == sum_for(cs2, t),
    decreases cs1.len(),
{
    cs1.to_multiset_ensures();
    cs2.to_multiset_ensures();
    if cs1.len() == 0 {
        assert(cs2.len() == 0);
    } else {
        let x = cs1.last();
        let i1 = cs1.len() - 1;
        assert(cs1.contains(x));
        assert(cs2.to_multiset().count(x) > 0);
        assert(cs2.contains(x));
        let i2 = choose|i: int| 0 <= i < cs2.len() && cs2[i] == x;
        assert(cs1.remove(i1) =~= cs1.drop_last());
        assert(cs1.drop_last().to_multiset() == cs2.remove(i2).to_multiset());
        lemma_sum_any_order(cs1.drop_last(), cs2.remove(i2), t);
        lemma_sum_for_remove(cs2, i2, t);
    }
}

/// Aggregation under any delivery order: when the commands sent as `sent`
/// arrive interleaved as `delivered`, the holdings built from empty record,
/// for every ticker, exactly the sum of the sent amounts for that ticker.
pub proof fn lemma_holdings_from_any_delivery(
    sent: Seq<(Seq<char>, int)>,
    delivered: Seq<(Seq<char>, int)>,
    t: Seq<char>,
)
    requires
        sent.to_multiset() == delivered.to_multiset(),
    ensures
        value_of(apply_commands(Seq::empty(), delivered), t) == sum_for(sent, t),
{
    lemma_aggregation(Seq::empty(), delivered, t);
    lemma_sum_any_order(sent, delivered, t);
}

/// Idempotent snapshot: two snapshots of the same holdings, with no
/// purchase recorded in between, are the same string.
pub proof fn lemma_snapshot_idempotent(
    s1: Seq<char>,
    s2: Seq<char>,
    entries: Seq<(Seq<char>, int)>,
)
    requires
        s1 == render_state(entries),
        s2 == render_state(entries),
    ensures
        s1 == s2,
{
}

impl TrackerActor {
    /// The holdings as a sequence of (ticker, amount) pairs over plain
    /// mathematical values, in the order entries were first inserted.
    pub open spec fn entries(self) -> Seq<(Seq<char>, int)> {
        self.db@.map(|i: int, e: (String, i64)| (e.0@, e.1 as int))
    }

    /// Well-formedness: ticker keys are unique.
    pub open spec fn wf(self) -> bool {
        forall|i: int, j: int|
            0 <= i < j < self.entries().len() ==> self.entries()[i].0 != self.entries()[j].0
    }

    /// A fresh tracker with empty holdings.
    pub fn new() -> (r: Self)
        ensures
            r.entries().len() == 0,
            r.wf(),
    {
        let r = TrackerActor { db: Vec::new() };
        proof {
            assert(r.entries() =~= Seq::<(Seq<char>, int)>::empty());
        }
        r
    }

    /// Position of the entry for `ticker` in the holdings, if any.
    fn find(&self, ticker: &String) -> (r: Option<usize>)
        ensures
            r matches Some(i) ==> i < self.db@.len() && find_index(self.entries(), ticker@)
                == i as int,
            r is None ==> find_index(self.entries(), ticker@) == -1,
    {
        let mut i: usize = 0;
        while i < self.db.len()
            invariant
                i <= self.db@.len(),
                forall|j: int| 0 <= j < i ==> self.entries()[j].0 != ticker@,
            decreases self.db@.len() - i,
        {
            if self.db[i].0 == *ticker {
                proof {
                    lemma_find_index_of(self.entries(), ticker@, i as int);
                }
                return Some(i);
            }
            i = i + 1;
        }
        proof {
            lemma_find_index_none(self.entries(), ticker@);
        }
        None
    }

    /// The amount currently held for `ticker`; `0` when the ticker has
    /// never been recorded.
    pub fn amount_for(&self, ticker: &String) -> (r: i64)
        ensures
            r as int == value_of(self.entries(), ticker@),
    {
        proof {
            lemma_find_index_props(self.entries(), ticker@);
        }
        match self.find(ticker) {
            Some(i) => self.db[i].1,
            None => 0,
        }
    }

    /// Builds the serialized holdings dump that a snapshot reply carries:
    /// `"<ticker>: <amount>;"` per entry, in insertion order, then the
    /// trailing newline marker. The output depends on the holdings alone, so
    /// repeated snapshots of an unchanged state are identical.
    pub fn send_state(&self) -> (r: String)
        ensures
            r@ == render_state(self.entries()),
    {
        let mut out = String::new();
        proof {
            assert(self.entries().take(0) =~= Seq::<(Seq<char>, int)>::empty());
        }
        let mut i: usize = 0;
        while i < self.db.len()
            invariant
                i <= self.db@.len(),
                out@ == render_entries(self.entries().take(i as int)),
            decreases self.db@.len() - i,
        {
            let num = i64_to_string(self.db[i].1);
            out.append(self.db[i].0.as_str());
            out.append(": ");
            out.append(num.as_str());
            out.append(";");
            proof {
                let e = self.entries();
                assert(e.take(i as int + 1).drop_last() =~= e.take(i as int));
                assert(e.take(i as int + 1).last() == e[i as int]);
                assert(out@ =~= render_entries(e.take(i as int)) + render_entry(
                    e[i as int].0,
                    e[i as int].1,
                ));
            }
            i = i + 1;
        }
        proof {
            assert(self.entries().take(self.db@.len() as int) =~= self.entries());
        }
        out.append("\n");
        out
    }

    /// Handles one mailbox message. `BUY` folds the amount into the ticker's
    /// holding, inserting the ticker on first sight, and yields no reply;
    /// `GET` leaves the holdings unchanged and yields the serialized
    /// snapshot to reply with.
    pub fn handle_message(&mut self, message: TrackerMessage) -> (r: Option<String>)
        requires
            old(self).wf(),
            message.command matches Order::BUY(t, a) ==> i64::MIN <= value_of(
                old(self).entries(),
                t@,
            ) + a <= i64::MAX,
        ensures
            final(self).wf(),
            message.command matches Order::GET ==> final(self).entries() == old(self).entries()
                && (r matches Some(s) && s@ == render_state(old(self).entries())),
            message.command matches Order::BUY(t, a) ==> r is None && final(self).entries()
                == record_spec(old(self).entries(), t@, a as int),
    {
        match message.command {
            Order::BUY(ticker, amount) => {
                let ghost e0 = self.entries();
                let ghost tv = ticker@;
                let idx = self.find(&ticker);
                proof {
                    lemma_find_index_props(e0, tv);
                }
                match idx {
                    Some(i) => {
                        let v = self.db[i].1;
                        self.db.set(i, (ticker, v + amount));
                        proof {
                            assert(self.entries() =~= e0.update(
                                i as int,
                                (tv, e0[i as int].1 + amount as int),
                            ));
                            assert(self.entries() == record_spec(e0, tv, amount as int));
                            assert forall|p: int, q: int|
                                0 <= p < q < self.entries().len() implies self.entries()[p].0
                                != self.entries()[q].0 by {
                                assert(e0[p].0 != e0[q].0);
                            }
                        }
                    },
                    None => {
                        self.db.push((ticker, amount));
                        proof {
                            assert(self.entries() =~= e0.push((tv, amount as int)));
                            assert(self.entries() == record_spec(e0, tv, amount as int));
                            assert forall|p: int, q: int|
                                0 <= p < q < self.entries().len() implies self.entries()[p].0
                                != self.entries()[q].0 by {
                                if q < e0.len() {
                                    assert(e0[p].0 != e0[q].0);
                                } else {
                                    assert(e0[p].0 != tv);
                                }
                            }
                        }
                    },
                }
                None
            },
            Order::GET => Some(self.send_state()),
        }
    }
}

} // verus!
