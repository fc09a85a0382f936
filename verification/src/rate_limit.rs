//! Fixed-window request limiting per (host, client address) pair.
use std::time::{Duration, SystemTime, SystemTimeError};
use vstd::prelude::*;

verus! {

#[verifier::external_type_specification]
#[verifier::external_body]
pub struct ExSystemTime(SystemTime);

#[verifier::external_type_specification]
#[verifier::external_body]
pub struct ExSystemTimeError(SystemTimeError);

/// Calls `std::time::SystemTime::now`. The clock's reading is not stated.
#[verifier::external_body]
fn system_time_now() -> SystemTime {
    SystemTime::now()
}

/// Calls `SystemTime::duration_since` with the Unix epoch, which fails when
/// the clock reads a time before the epoch. What it returns is not stated: it
/// comes from the clock.
#[verifier::external_body]
fn since_unix_epoch(t: &SystemTime) -> Result<Duration, SystemTimeError> {
    t.duration_since(std::time::UNIX_EPOCH)
}

/// Calls `Duration::as_secs`: the whole seconds of a duration read off the
/// clock. Nothing is stated of the value.
#[verifier::external_body]
fn whole_seconds(d: &Duration) -> u64 {
    d.as_secs()
}

/// Whole seconds since the Unix epoch by the system clock; a clock set
/// before the epoch reads as second 0.
fn unix_now_secs() -> u64 {
    let t = system_time_now();
    match since_unix_epoch(&t) {
        Ok(d) => whole_seconds(&d),
        Err(_) => 0,
    }
}

/// Once the table holds more than this many clients, a check first drops
/// every client whose window is older than the previous one.
pub const PRUNE_THRESHOLD: usize = 10000;

/// A client as the limiter tells clients apart: the requested host and the
/// client's address, as character sequences.
pub type ClientKey = (Seq<char>, Seq<char>);

/// What the limiter remembers of a client: the index of its current window
/// (seconds since the epoch divided by the window length) and how many
/// requests it was let through in that window.
pub type WindowCount = (u64, u64);

/// The whole state of a limiter.
pub type LimiterTable = Map<ClientKey, WindowCount>;

/// The window before `current`, or window 0 when there is none.
pub open spec fn previous_window(current: u64) -> u64 {
    if current > 0 {
        (current - 1) as u64
    } else {
        0
    }
}

/// The table after the growth guard: above the threshold only the clients
/// seen in the current or the previous window stay.
pub open spec fn pruned(m: LimiterTable, current: u64) -> LimiterTable {
    if m.len() > PRUNE_THRESHOLD {
        m.restrict(m.dom().filter(|k: ClientKey| m[k].0 >= previous_window(current)))
    } else {
        m
    }
}

/// What one check of `key` at second `now` answers and leaves behind.
///
/// A zero limit refuses and a zero window admits, both without touching the
/// table. Otherwise the table is pruned, and a client counted in the current
/// window is admitted while its count is below the limit (and the count grows
/// by one); a client with no count in the current window starts one at 1 and
/// is admitted.
pub open spec fn check_outcome(
    m: LimiterTable,
    key: ClientKey,
    limit_reqs: u64,
    window_sec: u64,
    now: u64,
) -> (bool, LimiterTable) {
    if limit_reqs == 0 {
        (false, m)
    } else if window_sec == 0 {
        (true, m)
    } else {
        let current = now / window_sec;
        let m1 = pruned(m, current);
        if m1.contains_key(key) && m1[key].0 == current {
            if m1[key].1 < limit_reqs {
                (true, m1.insert(key, (current, (m1[key].1 + 1) as u64)))
            } else {
                (false, m1)
            }
        } else {
            (true, m1.insert(key, (current, 1u64)))
        }
    }
}

/// Runs checks of one client at the given seconds, in order: the answer of
/// each check, and the table left behind.
pub open spec fn run_checks(
    m: LimiterTable,
    key: ClientKey,
    limit_reqs: u64,
    window_sec: u64,
    times: Seq<u64>,
) -> (Seq<bool>, LimiterTable)
    decreases times.len(),
{
    if times.len() == 0 {
        (Seq::empty(), m)
    } else {
        let first = check_outcome(m, key, limit_reqs, window_sec, times[0]);
        let rest = run_checks(first.1, key, limit_reqs, window_sec, times.drop_first());
        (seq![first.0] + rest.0, rest.1)
    }
}

/// The smaller of two counts.
pub open spec fn min_count(a: int, b: int) -> int {
    if a < b {
        a
    } else {
        b
    }
}

/// A zero limit refuses every request and changes nothing.
pub proof fn lemma_zero_limit_refuses(m: LimiterTable, key: ClientKey, window_sec: u64, now: u64)
    ensures
        check_outcome(m, key, 0, window_sec, now) == (false, m),
{
}

/// With a positive limit, a zero window admits every request and changes
/// nothing.
pub proof fn lemma_zero_window_admits(m: LimiterTable, key: ClientKey, limit_reqs: u64, now: u64)
    requires
        limit_reqs > 0,
    ensures
        check_outcome(m, key, limit_reqs, 0, now) == (true, m),
{
}

/// An admitted request is counted in the current window, and the count stays
/// within the limit it was admitted under; a refused request leaves its
/// client's count as it was, at or above the limit, in the current window.
pub proof fn lemma_admitted_are_counted(
    m: LimiterTable,
    key: ClientKey,
    limit_reqs: u64,
    window_sec: u64,
    now: u64,
)
    requires
        limit_reqs > 0,
        window_sec > 0,
    ensures
        ({
            let (allowed, after) = check_outcome(m, key, limit_reqs, window_sec, now);
            let current = now / window_sec;
            &&& after.contains_key(key)
            &&& after[key].0 == current
            &&& allowed ==> 1 <= after[key].1 <= limit_reqs
            &&& !allowed ==> m.contains_key(key) && after[key] == m[key] && after[key].1
                >= limit_reqs
        }),
{
}

/// A check of one client leaves every other client as it was, except that
/// the growth guard may drop clients last seen before the previous window.
pub proof fn lemma_other_clients_unaffected(
    m: LimiterTable,
    key: ClientKey,
    other: ClientKey,
    limit_reqs: u64,
    window_sec: u64,
    now: u64,
)
    requires
        other != key,
    ensures
        ({
            let after = check_outcome(m, key, limit_reqs, window_sec, now).1;
            let kept = limit_reqs == 0 || window_sec == 0 || m.len() <= PRUNE_THRESHOLD
                || m[other].0 >= previous_window(now / window_sec);
            &&& after.contains_key(other) == (m.contains_key(other) && kept)
            &&& after.contains_key(other) ==> after[other] == m[other]
        }),
{
}

/// A check in a window the client has no count in is admitted and starts
/// the client's count at 1 in that window, whatever the limit.
pub proof fn lemma_new_window_restarts(
    m: LimiterTable,
    key: ClientKey,
    limit_reqs: u64,
    window_sec: u64,
    now: u64,
)
    requires
        limit_reqs > 0,
        window_sec > 0,
        m.contains_key(key) ==> m[key].0 != now / window_sec,
    ensures
        check_outcome(m, key, limit_reqs, window_sec, now).0,
        check_outcome(m, key, limit_reqs, window_sec, now).1[key] == (now / window_sec, 1u64),
{
}

/// Of two checks of one client at seconds in different windows, the second
/// is admitted and counts 1 in its window, however the first one ended.
pub proof fn lemma_later_window_restarts(
    m: LimiterTable,
    key: ClientKey,
    limit_reqs: u64,
    window_sec: u64,
    first: u64,
    second: u64,
)
    requires
        limit_reqs > 0,
        window_sec > 0,
        first / window_sec != second / window_sec,
    ensures
        ({
            let between = check_outcome(m, key, limit_reqs, window_sec, first).1;
            let (allowed, after) = check_outcome(between, key, limit_reqs, window_sec, second);
            allowed && after[key] == (second / window_sec, 1u64)
        }),
{
    let between = check_outcome(m, key, limit_reqs, window_sec, first).1;
    assert(between.contains_key(key) && between[key].0 == first / window_sec);
    lemma_new_window_restarts(between, key, limit_reqs, window_sec, second);
}

/// Above the threshold, a check leaves only clients seen in the current or
/// the previous window.
pub proof fn lemma_growth_guard(
    m: LimiterTable,
    key: ClientKey,
    limit_reqs: u64,
    window_sec: u64,
    now: u64,
)
    requires
        limit_reqs > 0,
        window_sec > 0,
        m.len() > PRUNE_THRESHOLD,
    ensures
        forall|k: ClientKey|
            #[trigger] check_outcome(m, key, limit_reqs, window_sec, now).1.contains_key(k)
                ==> check_outcome(m, key, limit_reqs, window_sec, now).1[k].0 >= previous_window(
                now / window_sec,
            ),
{
}

proof fn lemma_budget_from(
    m: LimiterTable,
    key: ClientKey,
    limit_reqs: u64,
    window_sec: u64,
    times: Seq<u64>,
    current: u64,
    c: u64,
)
    requires
        window_sec > 0,
        limit_reqs > 0,
        forall|i: int| 0 <= i < times.len() ==> #[trigger] times[i] / window_sec == current,
        m.contains_key(key),
        m[key] == (current, c),
        c <= limit_reqs,
    ensures
        ({
            let (answers, after) = run_checks(m, key, limit_reqs, window_sec, times);
            &&& answers.len() == times.len()
            &&& forall|j: int| 0 <= j < times.len() ==> #[trigger] answers[j] == (c + j < limit_reqs)
            &&& after.contains_key(key)
            &&& after[key] == (current, min_count(c + times.len(), limit_reqs as int) as u64)
            &&& m.dom() == set![key] ==> after.dom() == set![key]
        }),
    decreases times.len(),
{
    if times.len() > 0 {
        assert(times[0] / window_sec == current);
        let m1 = pruned(m, current);
        if m.dom() == set![key] {
            assert(m.len() == 1);
        }
        assert(m1.contains_key(key) && m1[key] == m[key]);
        let rest = times.drop_first();
        assert forall|i: int| 0 <= i < rest.len() implies #[trigger] rest[i] / window_sec
            == current by {
            assert(rest[i] == times[i + 1]);
        }
        let first = check_outcome(m, key, limit_reqs, window_sec, times[0]);
        let c1 = if c < limit_reqs {
            (c + 1) as u64
        } else {
            c
        };
        if m.dom() == set![key] {
            assert(first.1.dom() =~= set![key]);
        }
        lemma_budget_from(first.1, key, limit_reqs, window_sec, rest, current, c1);
        let (answers, after) = run_checks(m, key, limit_reqs, window_sec, times);
        let rest_answers = run_checks(first.1, key, limit_reqs, window_sec, rest).0;
        assert(answers == seq![first.0] + rest_answers);
        assert forall|j: int| 0 <= j < times.len() implies #[trigger] answers[j] == (c + j
            < limit_reqs) by {
            if j > 0 {
                assert(answers[j] == rest_answers[j - 1]);
            }
        }
    }
}

/// Within one window, a client not yet counted in it has exactly the first
/// `limit_reqs` requests admitted and every later one refused; its entry is
/// then the window with the admitted count. Starting from an empty table,
/// that entry is all the table holds.
pub proof fn lemma_window_budget(
    m: LimiterTable,
    key: ClientKey,
    limit_reqs: u64,
    window_sec: u64,
    times: Seq<u64>,
)
    requires
        limit_reqs > 0,
        window_sec > 0,
        times.len() > 0,
        forall|i: int| 0 <= i < times.len() ==> #[trigger] times[i] / window_sec == times[0] / window_sec,
        !(m.contains_key(key) && m[key].0 == times[0] / window_sec),
    ensures
        ({
            let (answers, after) = run_checks(m, key, limit_reqs, window_sec, times);
            let current = times[0] / window_sec;
            let admitted = min_count(times.len() as int, limit_reqs as int);
            &&& answers.len() == times.len()
            &&& forall|j: int| 0 <= j < times.len() ==> #[trigger] answers[j] == (j < limit_reqs)
            &&& after.contains_key(key)
            &&& after[key] == (current, admitted as u64)
            &&& m == Map::<ClientKey, WindowCount>::empty() ==> after == map![key => (current, admitted as u64)]
        }),
{
    let current = times[0] / window_sec;
    let rest = times.drop_first();
    assert forall|i: int| 0 <= i < rest.len() implies #[trigger] rest[i] / window_sec
        == current by {
        assert(rest[i] == times[i + 1]);
    }
    let first = check_outcome(m, key, limit_reqs, window_sec, times[0]);
    let m1 = pruned(m, current);
    assert(!(m1.contains_key(key) && m1[key].0 == current));
    if m == Map::<ClientKey, WindowCount>::empty() {
        assert(first.1.dom() =~= set![key]);
    }
    lemma_budget_from(first.1, key, limit_reqs, window_sec, rest, current, 1);
    let (answers, after) = run_checks(m, key, limit_reqs, window_sec, times);
    let rest_answers = run_checks(first.1, key, limit_reqs, window_sec, rest).0;
    assert(answers == seq![first.0] + rest_answers);
    assert forall|j: int| 0 <= j < times.len() implies #[trigger] answers[j] == (j
        < limit_reqs) by {
        if j > 0 {
            assert(answers[j] == rest_answers[j - 1]);
        }
    }
    if m == Map::<ClientKey, WindowCount>::empty() {
        assert(after =~= map![key => (current, min_count(times.len() as int, limit_reqs as int) as u64)]);
    }
}

/// One remembered client.
struct Entry {
    host: String,
    ip: String,
    window_start: u64,
    count: u64,
}

impl Entry {
    spec fn key(self) -> ClientKey {
        (self.host@, self.ip@)
    }

    spec fn value(self) -> WindowCount {
        (self.window_start, self.count)
    }

    fn duplicate(&self) -> (r: Entry)
        ensures
            r == *self,
    {
        Entry {
            host: self.host.clone(),
            ip: self.ip.clone(),
            window_start: self.window_start,
            count: self.count,
        }
    }
}

/// The table that a sequence of entries stands for; a later entry wins.
spec fn table_of(s: Seq<Entry>) -> LimiterTable
    decreases s.len(),
{
    if s.len() == 0 {
        Map::empty()
    } else {
        table_of(s.drop_last()).insert(s.last().key(), s.last().value())
    }
}

spec fn keys_distinct(s: Seq<Entry>) -> bool {
    forall|i: int, j: int| 0 <= i < j < s.len() ==> s[i].key() != s[j].key()
}

/// The entries whose window is `lo` or later, in their order.
spec fn recent_entries(s: Seq<Entry>, lo: u64) -> Seq<Entry>
    decreases s.len(),
{
    if s.len() == 0 {
        s
    } else {
        let rest = recent_entries(s.drop_last(), lo);
        if s.last().window_start >= lo {
            rest.push(s.last())
        } else {
            rest
        }
    }
}

proof fn lemma_entry_in_table(s: Seq<Entry>, j: int)
    requires
        keys_distinct(s),
        0 <= j < s.len(),
    ensures
        table_of(s).contains_key(s[j].key()),
        table_of(s)[s[j].key()] == s[j].value(),
    decreases s.len(),
{
    if j < s.len() - 1 {
        let d = s.drop_last();
        assert(d[j] == s[j]);
        lemma_entry_in_table(d, j);
        assert(s[j].key() != s.last().key());
    }
}

proof fn lemma_absent_from_table(s: Seq<Entry>, k: ClientKey)
    requires
        forall|j: int| 0 <= j < s.len() ==> s[j].key() != k,
    ensures
        !table_of(s).contains_key(k),
    decreases s.len(),
{
    if s.len() > 0 {
        let d = s.drop_last();
        assert forall|j: int| 0 <= j < d.len() implies d[j].key() != k by {
            assert(d[j] == s[j]);
        }
        lemma_absent_from_table(d, k);
    }
}

proof fn lemma_table_len(s: Seq<Entry>)
    requires
        keys_distinct(s),
    ensures
        table_of(s).dom().finite(),
        table_of(s).len() == s.len(),
    decreases s.len(),
{
    if s.len() > 0 {
        let d = s.drop_last();
        assert forall|j: int| 0 <= j < d.len() implies d[j].key() != s.last().key() by {
            assert(d[j] == s[j]);
        }
        lemma_table_len(d);
        lemma_absent_from_table(d, s.last().key());
    }
}

proof fn lemma_table_update(s: Seq<Entry>, i: int, e: Entry)
    requires
        keys_distinct(s),
        0 <= i < s.len(),
        e.key() == s[i].key(),
    ensures
        keys_distinct(s.update(i, e)),
        table_of(s.update(i, e)) == table_of(s).insert(e.key(), e.value()),
    decreases s.len(),
{
    let t = s.update(i, e);
    assert forall|a: int, b: int| 0 <= a < b < t.len() implies t[a].key() != t[b].key() by {
        assert(t[a].key() == s[a].key());
        assert(t[b].key() == s[b].key());
    }
    let d = s.drop_last();
    if i == s.len() - 1 {
        assert(t.drop_last() =~= d);
        assert(table_of(t) =~= table_of(s).insert(e.key(), e.value()));
    } else {
        assert(t.drop_last() =~= d.update(i, e));
        lemma_table_update(d, i, e);
        assert(s.last().key() != e.key());
        assert(table_of(t) =~= table_of(s).insert(e.key(), e.value()));
    }
}

proof fn lemma_table_push(s: Seq<Entry>, e: Entry)
    requires
        keys_distinct(s),
        !table_of(s).contains_key(e.key()),
    ensures
        keys_distinct(s.push(e)),
        table_of(s.push(e)) == table_of(s).insert(e.key(), e.value()),
{
    let t = s.push(e);
    assert forall|j: int| 0 <= j < s.len() implies s[j].key() != e.key() by {
        lemma_entry_in_table(s, j);
    }
    assert forall|a: int, b: int| 0 <= a < b < t.len() implies t[a].key() != t[b].key() by {
        assert(t[a] == s[a]);
    }
    assert(t.drop_last() =~= s);
}

proof fn lemma_recent_entries(s: Seq<Entry>, lo: u64)
    requires
        keys_distinct(s),
    ensures
        keys_distinct(recent_entries(s, lo)),
        table_of(recent_entries(s, lo)) == table_of(s).restrict(
            table_of(s).dom().filter(|k: ClientKey| table_of(s)[k].0 >= lo),
        ),
    decreases s.len(),
{
    let ms = table_of(s);
    let target = ms.restrict(ms.dom().filter(|k: ClientKey| ms[k].0 >= lo));
    if s.len() == 0 {
        assert(table_of(recent_entries(s, lo)) =~= target);
    } else {
        let d = s.drop_last();
        let e = s.last();
        assert forall|a: int, b: int| 0 <= a < b < d.len() implies d[a].key() != d[b].key() by {
            assert(d[a] == s[a] && d[b] == s[b]);
        }
        assert forall|j: int| 0 <= j < d.len() implies d[j].key() != e.key() by {
            assert(d[j] == s[j]);
        }
        lemma_recent_entries(d, lo);
        lemma_absent_from_table(d, e.key());
        let md = table_of(d);
        let rd = recent_entries(d, lo);
        if e.window_start >= lo {
            assert(!table_of(rd).contains_key(e.key()));
            lemma_table_push(rd, e);
            assert(table_of(recent_entries(s, lo)) =~= target);
        } else {
            assert(table_of(recent_entries(s, lo)) =~= target);
        }
    }
}

/// Counts each client's requests in fixed time windows. The view is the
/// table of clients; the entries behind it never list a client twice.
///
/// The entries are a vector searched from the front: vstd specifies
/// `std::collections::HashMap` only for key types with a key model, and
/// `String` (so a pair of them) has none, so nothing could be proved of a
/// hash map keyed by host and address. A lookup costs time linear in the
/// number of clients, which the growth guard keeps to recent ones.
pub struct RateLimiter {
    entries: Vec<Entry>,
}

impl View for RateLimiter {
    type V = LimiterTable;

    closed spec fn view(&self) -> LimiterTable {
        table_of(self.entries@)
    }
}

fn find_entry(entries: &Vec<Entry>, host: &String, ip: &String) -> (pos: Option<usize>)
    ensures
        match pos {
            Some(i) => i < entries.len() && entries@[i as int].key() == (host@, ip@),
            None => forall|j: int| 0 <= j < entries.len() ==> entries@[j].key() != (host@, ip@),
        },
{
    let mut i: usize = 0;
    while i < entries.len()
        invariant
            i <= entries.len(),
            forall|j: int| 0 <= j < i ==> entries@[j].key() != (host@, ip@),
        decreases entries.len() - i,
    {
        if entries[i].host == *host && entries[i].ip == *ip {
            return Some(i);
        }
        i = i + 1;
    }
    None
}

fn keep_recent(entries: &Vec<Entry>, lo: u64) -> (kept: Vec<Entry>)
    ensures
        kept@ == recent_entries(entries@, lo),
{
    let mut kept: Vec<Entry> = Vec::new();
    let mut i: usize = 0;
    while i < entries.len()
        invariant
            i <= entries.len(),
            kept@ == recent_entries(entries@.take(i as int), lo),
        decreases entries.len() - i,
    {
        assert(entries@.take(i + 1).drop_last() =~= entries@.take(i as int));
        if entries[i].window_start >= lo {
            kept.push(entries[i].duplicate());
        }
        i = i + 1;
    }
    assert(entries@.take(i as int) =~= entries@);
    kept
}

impl RateLimiter {
    #[verifier::type_invariant]
    spec fn no_client_twice(self) -> bool {
        keys_distinct(self.entries@)
    }

    /// A limiter that remembers no client.
    pub fn new() -> (r: Self)
        ensures
            r@ == Map::<ClientKey, WindowCount>::empty(),
    {
        RateLimiter { entries: Vec::new() }
    }

    /// Decides whether the client (`host`, `ip`) may make one more request
    /// when at most `limit_reqs` requests are allowed in each window of
    /// `window_sec` seconds, and counts it if so. The time is the system
    /// clock's, so the outcome is that of `check_outcome` at some second; a
    /// clock set before the Unix epoch reads as second 0.
    pub fn check(&mut self, host: &str, ip: &str, limit_reqs: u64, window_sec: u64) -> (allowed: bool)
        ensures
            limit_reqs == 0 ==> !allowed && final(self)@ == old(self)@,
            limit_reqs > 0 && window_sec == 0 ==> allowed && final(self)@ == old(self)@,
            exists|now: u64|
                (allowed, final(self)@) == #[trigger] check_outcome(
                    old(self)@,
                    (host@, ip@),
                    limit_reqs,
                    window_sec,
                    now,
                ),
            final(self)@.dom().finite(),
    {
        if limit_reqs == 0 || window_sec == 0 {
            return self.check_at(host, ip, limit_reqs, window_sec, 0);
        }
        let now = unix_now_secs();
        self.check_at(host, ip, limit_reqs, window_sec, now)
    }

    /// The check of `check`, with the current time given in whole seconds
    /// since the Unix epoch.
    pub fn check_at(&mut self, host: &str, ip: &str, limit_reqs: u64, window_sec: u64, now: u64) -> (allowed: bool)
        ensures
            (allowed, final(self)@) == check_outcome(old(self)@, (host@, ip@), limit_reqs, window_sec, now),
            old(self)@.dom().finite(),
            final(self)@.dom().finite(),
    {
        proof {
            use_type_invariant(&*self);
            lemma_table_len(self.entries@);
        }
        if limit_reqs == 0 {
            return false;
        }
        if window_sec == 0 {
            return true;
        }
        let current = now / window_sec;
        let ghost m = self@;
        let mut entries: Vec<Entry> = Vec::new();
        std::mem::swap(&mut entries, &mut self.entries);
        if entries.len() > PRUNE_THRESHOLD {
            let lo = if current > 0 { current - 1 } else { 0 };
            proof {
                lemma_recent_entries(entries@, lo);
            }
            entries = keep_recent(&entries, lo);
        }
        assert(table_of(entries@) == pruned(m, current));
        assert(keys_distinct(entries@));
        let host_s = host.to_owned();
        let ip_s = ip.to_owned();
        let ghost key = (host@, ip@);
        let allowed;
        match find_entry(&entries, &host_s, &ip_s) {
            Some(i) => {
                let window_start = entries[i].window_start;
                let count = entries[i].count;
                proof {
                    lemma_entry_in_table(entries@, i as int);
                }
                if window_start != current {
                    let e = Entry { host: host_s, ip: ip_s, window_start: current, count: 1 };
                    proof {
                        lemma_table_update(entries@, i as int, e);
                    }
                    entries.set(i, e);
                    allowed = true;
                } else if count < limit_reqs {
                    let e = Entry { host: host_s, ip: ip_s, window_start: current, count: count + 1 };
                    proof {
                        lemma_table_update(entries@, i as int, e);
                    }
                    entries.set(i, e);
                    allowed = true;
                } else {
                    allowed = false;
                }
            },
            None => {
                let e = Entry { host: host_s, ip: ip_s, window_start: current, count: 1 };
                proof {
                    lemma_absent_from_table(entries@, key);
                    lemma_table_push(entries@, e);
                }
                entries.push(e);
                allowed = true;
            },
        }
        proof {
            lemma_table_len(entries@);
        }
        self.entries = entries;
        allowed
    }
}

} // verus!
