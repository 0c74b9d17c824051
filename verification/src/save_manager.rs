use vstd::prelude::*;
use std::time::{Duration, SystemTime, SystemTimeError};
use rand::rngs::ThreadRng;
use rand::Rng;
use crate::map::{Goal, TileCoord, TileMap, TileState};

verus! {

#[verifier::external_type_specification]
#[verifier::external_body]
pub struct ExSystemTime(SystemTime);

#[verifier::external_type_specification]
#[verifier::external_body]
pub struct ExSystemTimeError(SystemTimeError);

#[verifier::external_type_specification]
#[verifier::external_body]
pub struct ExThreadRng(ThreadRng);

/// std's `SystemTime::now`: the clock's reading. Nothing is claimed of it.
#[verifier::external_body]
fn system_time_now() -> (now: SystemTime) {
    SystemTime::now()
}

/// What `SystemTime::duration_since` gives for `now` and `earlier`: how long
/// after `earlier` the time `now` is, or an error where `earlier` is later.
/// It depends on the two times alone.
pub uninterp spec fn elapsed_between(now: SystemTime, earlier: SystemTime) -> Result<Duration, SystemTimeError>;

/// What `Duration::as_secs` gives for `d`: its whole seconds.
pub uninterp spec fn whole_secs(d: Duration) -> u64;

/// std's `SystemTime::duration_since`: claimed to return what
/// `elapsed_between` names for its two arguments. Which duration that is,
/// and when it is an error, is left unsaid, since both times are opaque here.
#[verifier::external_body]
fn duration_since(now: SystemTime, earlier: SystemTime) -> (elapsed: Result<Duration, SystemTimeError>)
    ensures
        elapsed == elapsed_between(now, earlier),
{
    now.duration_since(earlier)
}

/// std's `Duration::as_secs`: claimed to return what `whole_secs` names for
/// its argument; the number itself is left unsaid, since a duration is
/// opaque here.
#[verifier::external_body]
fn duration_as_secs(d: Duration) -> (secs: u64)
    ensures
        secs == whole_secs(d),
{
    d.as_secs()
}

/// rand's `Rng::gen_range` on the inclusive range `low..=high`: claimed to
/// return a number of the range, as its documentation says; which number is
/// left to chance. It panics on an empty range, which `requires` leaves out.
#[verifier::external_body]
fn gen_range_inclusive(rng: &mut ThreadRng, low: u32, high: u32) -> (n: u32)
    requires
        low <= high,
    ensures
        low <= n <= high,
{
    rng.gen_range(low..=high)
}

/// The least time, in whole seconds, between two saves.
pub const SAVE_INTERVAL_SECS: u64 = 2;

/// The largest number in a saved map's name.
pub const MAX_MAP_ID: u32 = 9999;

/// The whole seconds from `earlier` to `now`, or `None` where `now` is the
/// earlier of the two.
pub open spec fn secs_since(now: SystemTime, earlier: SystemTime) -> Option<u64> {
    match elapsed_between(now, earlier) {
        Ok(d) => Some(whole_secs(d)),
        Err(_) => None,
    }
}

/// What a save requested `elapsed_secs` whole seconds after the last one
/// comes to (`None` where the clock reads earlier than the last save).
pub open spec fn gate_for(elapsed_secs: Option<u64>) -> SaveGate {
    match elapsed_secs {
        None => SaveGate::ClockWentBack,
        Some(s) => if s < SAVE_INTERVAL_SECS {
            SaveGate::TooSoon
        } else {
            SaveGate::Proceed
        },
    }
}

/// What a save requested at the clock reading `now` comes to, the last save
/// having been at `last`.
pub open spec fn gate_at(now: SystemTime, last: SystemTime) -> SaveGate {
    gate_for(secs_since(now, last))
}

/// The time of the last save after a request at `now` that came to `gate`.
pub open spec fn last_save_after(gate: SaveGate, now: SystemTime, last: SystemTime) -> SystemTime {
    if gate is Proceed {
        now
    } else {
        last
    }
}

/// Saves are kept apart: of two requests in turn, at the readings `now1`
/// and `now2`, both go ahead only where `now2` is at least
/// `SAVE_INTERVAL_SECS` whole seconds after `now1`; and a request that does
/// not go ahead leaves the last save as it was, so the next one is measured
/// from the last save that went ahead.
pub proof fn lemma_saves_kept_apart(last: SystemTime, now1: SystemTime, now2: SystemTime)
    ensures
        ({
            let g1 = gate_at(now1, last);
            let t1 = last_save_after(g1, now1, last);
            let g2 = gate_at(now2, t1);
            &&& (g1 is Proceed && g2 is Proceed) ==> (secs_since(now2, now1) matches Some(s) && s
                >= SAVE_INTERVAL_SECS)
            &&& !(g1 is Proceed) ==> t1 == last
            &&& g2 is Proceed ==> (secs_since(now2, t1) matches Some(s) && s >= SAVE_INTERVAL_SECS)
        }),
{
}

/// A save goes ahead exactly when at least `SAVE_INTERVAL_SECS` whole
/// seconds have passed since the last one, however many: waiting longer never
/// turns a save away, and a clock that reads earlier than the last save
/// turns it away as such.
pub proof fn lemma_gate_by_elapsed(s: u64, t: u64)
    ensures
        s >= SAVE_INTERVAL_SECS ==> gate_for(Some(s)) == SaveGate::Proceed,
        s < SAVE_INTERVAL_SECS ==> gate_for(Some(s)) == SaveGate::TooSoon,
        (s <= t && gate_for(Some(s)) is Proceed) ==> gate_for(Some(t)) is Proceed,
        gate_for(None) == SaveGate::ClockWentBack,
{
}

/// The time of the last save before the `m`-th of the requests at
/// `readings`, made in turn, the last save having been at `last` at first.
pub open spec fn last_save_before(last: SystemTime, readings: Seq<SystemTime>, m: nat) -> SystemTime
    decreases m,
{
    if m == 0 {
        last
    } else {
        let prev = last_save_before(last, readings, (m - 1) as nat);
        let now = readings[m - 1];
        last_save_after(gate_at(now, prev), now, prev)
    }
}

/// What the `m`-th of the requests at `readings`, made in turn, comes to.
pub open spec fn request_gate(last: SystemTime, readings: Seq<SystemTime>, m: nat) -> SaveGate {
    gate_at(readings[m as int], last_save_before(last, readings, m))
}

/// The clock never goes back across `readings`: from each reading, every
/// later one lies at least as many whole seconds after it as after any
/// reading in between.
pub open spec fn clock_never_back(readings: Seq<SystemTime>) -> bool {
    forall|i: int, k: int, j: int|
        0 <= i <= k <= j < readings.len() ==> {
            &&& #[trigger] secs_since(readings[j], readings[i]) is Some
            &&& #[trigger] secs_since(readings[j], readings[k]) is Some
            &&& secs_since(readings[j], readings[i]).unwrap() >= secs_since(readings[j], readings[k]).unwrap()
        }
}

/// After a request at `i` that went ahead, the last save before any later
/// request is the reading of a request from `i` on.
proof fn lemma_last_save_in_run(last: SystemTime, readings: Seq<SystemTime>, i: nat, m: nat) -> (k: int)
    requires
        i < m <= readings.len(),
        request_gate(last, readings, i) is Proceed,
    ensures
        i <= k < m,
        last_save_before(last, readings, m) == readings[k],
    decreases m,
{
    if m == i + 1 {
        i as int
    } else {
        let k0 = lemma_last_save_in_run(last, readings, i, (m - 1) as nat);
        if request_gate(last, readings, (m - 1) as nat) is Proceed {
            m - 1
        } else {
            k0
        }
    }
}

/// In any run of save requests while the clock never goes back, any two
/// that go ahead are at least `SAVE_INTERVAL_SECS` whole seconds apart,
/// whatever requests come between them.
pub proof fn lemma_saves_apart_in_run(last: SystemTime, readings: Seq<SystemTime>, i: nat, j: nat)
    requires
        clock_never_back(readings),
        i < j < readings.len(),
        request_gate(last, readings, i) is Proceed,
        request_gate(last, readings, j) is Proceed,
    ensures
        secs_since(readings[j as int], readings[i as int]) matches Some(s) && s >= SAVE_INTERVAL_SECS,
{
    let k = lemma_last_save_in_run(last, readings, i, j);
    assert(secs_since(readings[j as int], readings[k]) is Some);
    assert(secs_since(readings[j as int], readings[i as int]) is Some);
}

/// Keeps saves of the map apart in time.
pub struct SaveManager {
    pub time_of_last_save: SystemTime,
}

/// What a request to save the map comes to.
#[derive(Clone, Copy, Debug, PartialEq, Eq, Structural)]
pub enum SaveGate {
    /// Save now; the time of this save is recorded.
    Proceed,
    /// The last save is less than `SAVE_INTERVAL_SECS` seconds old.
    TooSoon,
    /// The clock reads earlier than the last save.
    ClockWentBack,
}

/// The decimal digits of `n`, in ASCII.
pub open spec fn decimal(n: nat) -> Seq<u8>
    decreases n,
{
    if n < 10 {
        seq![(48 + n) as u8]
    } else {
        decimal(n / 10).push((48 + n % 10) as u8)
    }
}

/// The file name of the saved map numbered `id`: `map_` and the number.
pub open spec fn map_name(id: nat) -> Seq<u8> {
    seq![109u8, 97u8, 112u8, 95u8] + decimal(id)
}

/// Whether no entry among `existing` is the text `name`.
pub open spec fn name_free(existing: Seq<Vec<u8>>, name: Seq<u8>) -> bool {
    forall|i: int| 0 <= i < existing.len() ==> #[trigger] existing[i]@ != name
}

/// Every number has at least one digit.
proof fn lemma_decimal_nonempty(n: nat)
    ensures
        decimal(n).len() >= 1,
    decreases n,
{
    if n >= 10 {
        lemma_decimal_nonempty(n / 10);
    }
}

/// Different numbers are written differently.
pub proof fn lemma_decimal_injective(a: nat, b: nat)
    requires
        decimal(a) == decimal(b),
    ensures
        a == b,
    decreases a,
{
    if a >= 10 {
        lemma_decimal_nonempty(a / 10);
    }
    if b >= 10 {
        lemma_decimal_nonempty(b / 10);
    }
    if a >= 10 && b >= 10 {
        assert(decimal(a / 10) == decimal(a).drop_last());
        assert(decimal(b / 10) == decimal(b).drop_last());
        lemma_decimal_injective(a / 10, b / 10);
        assert(decimal(a).last() == decimal(b).last());
        let da = a % 10;
        let db = b % 10;
        assert(0 <= da < 10 && 0 <= db < 10);
        assert(decimal(a).last() == (48 + da) as u8);
        assert(decimal(b).last() == (48 + db) as u8);
        assert(da == db);
        assert(a == 10 * (a / 10) + a % 10);
        assert(b == 10 * (b / 10) + b % 10);
        assert(a == b);
    } else if a < 10 && b < 10 {
        assert(decimal(a)[0] == decimal(b)[0]);
        assert(decimal(a)[0] == (48 + a) as u8);
        assert(decimal(b)[0] == (48 + b) as u8);
        assert(a == b);
    } else if a < 10 {
        assert(decimal(a).len() == 1);
        assert(decimal(b).len() == decimal(b / 10).len() + 1);
    } else {
        assert(decimal(b).len() == 1);
        assert(decimal(a).len() == decimal(a / 10).len() + 1);
    }
}

/// Maps with different numbers get different file names, so a name that no
/// saved map has yet never overwrites one.
pub proof fn lemma_map_name_injective(a: nat, b: nat)
    requires
        a != b,
    ensures
        map_name(a) != map_name(b),
{
    if map_name(a) == map_name(b) {
        assert(map_name(a).skip(4) =~= decimal(a));
        assert(map_name(b).skip(4) =~= decimal(b));
        lemma_decimal_injective(a, b);
    }
}

/// Only an entry that is exactly the name blocks it: with no entries every
/// name is free, adding an entry that differs from the name (a shorter
/// prefix of it, say) keeps it free, and adding the name itself blocks it.
pub proof fn lemma_name_free_by_entries(existing: Seq<Vec<u8>>, entry: Vec<u8>, name: Seq<u8>)
    ensures
        name_free(Seq::empty(), name),
        entry@ != name ==> (name_free(existing.push(entry), name) <==> name_free(existing, name)),
        !name_free(existing.push(entry), entry@),
{
    let more = existing.push(entry);
    assert(more[existing.len() as int] == entry);
    if entry@ != name && name_free(existing, name) {
        assert forall|i: int| 0 <= i < more.len() implies #[trigger] more[i]@ != name by {
            if i < existing.len() {
                assert(more[i] == existing[i]);
            }
        }
    }
    if name_free(more, name) {
        assert forall|i: int| 0 <= i < existing.len() implies #[trigger] existing[i]@ != name by {
            assert(more[i] == existing[i]);
        }
    }
}

impl SaveManager {
    /// A manager whose last save is taken to be now. The recorded time is
    /// the clock's reading, which no clause here can state: a `SystemTime`
    /// is opaque to the proofs, and a reading of the clock gets no name.
    pub fn new() -> (manager: SaveManager) {
        SaveManager { time_of_last_save: system_time_now() }
    }

    /// Decides on a save requested at `now`, `elapsed_secs` whole seconds
    /// after the last save (`None` where `now` is earlier than it), and
    /// records `now` as the time of the last save where it goes ahead.
    pub fn record_attempt(&mut self, now: SystemTime, elapsed_secs: Option<u64>) -> (gate: SaveGate)
        ensures
            gate == gate_for(elapsed_secs),
            final(self).time_of_last_save == last_save_after(gate, now, old(self).time_of_last_save),
    {
        match elapsed_secs {
            None => SaveGate::ClockWentBack,
            Some(secs) => {
                if secs < SAVE_INTERVAL_SECS {
                    SaveGate::TooSoon
                } else {
                    self.time_of_last_save = now;
                    SaveGate::Proceed
                }
            },
        }
    }

    /// Decides on a save requested now: reads the clock, takes the whole
    /// seconds since the last save, and decides as `record_attempt` does.
    pub fn start_save(&mut self) -> (gate: SaveGate)
        ensures
            exists|now: SystemTime|
                gate == #[trigger] gate_at(now, old(self).time_of_last_save)
                    && final(self).time_of_last_save == last_save_after(gate, now, old(self).time_of_last_save),
    {
        let now = system_time_now();
        let elapsed = match duration_since(now, self.time_of_last_save) {
            Ok(d) => Some(duration_as_secs(d)),
            Err(_) => None,
        };
        assert(elapsed == secs_since(now, old(self).time_of_last_save));
        let gate = self.record_attempt(now, elapsed);
        assert(gate == gate_at(now, old(self).time_of_last_save));
        gate
    }
}

/// Appends the decimal digits of `n` to `out`.
fn push_decimal(out: &mut Vec<u8>, n: u32)
    ensures
        final(out)@ == old(out)@ + decimal(n as nat),
    decreases n,
{
    if n < 10 {
        out.push(48 + n as u8);
    } else {
        push_decimal(out, n / 10);
        out.push(48 + (n % 10) as u8);
    }
    assert(final(out)@ =~= old(out)@ + decimal(n as nat));
}

/// The file name of the saved map numbered `id`.
pub fn map_file_name(id: u32) -> (name: Vec<u8>)
    ensures
        name@ == map_name(id as nat),
{
    let mut name: Vec<u8> = Vec::new();
    name.push(109);
    name.push(97);
    name.push(112);
    name.push(95);
    push_decimal(&mut name, id);
    name
}

/// Whether `a` and `b` hold the same bytes.
fn bytes_equal(a: &Vec<u8>, b: &Vec<u8>) -> (same: bool)
    ensures
        same == (a@ == b@),
{
    if a.len() != b.len() {
        return false;
    }
    let mut i: usize = 0;
    while i < a.len()
        invariant
            i <= a@.len(),
            a@.len() == b@.len(),
            forall|k: int| 0 <= k < i ==> a@[k] == b@[k],
        decreases a@.len() - i,
    {
        if a[i] != b[i] {
            return false;
        }
        i = i + 1;
    }
    assert(a@ =~= b@);
    true
}

/// Whether no entry among `existing` is the text `name`: the check that
/// keeps a drawn map name only where no listed entry matches it.
pub fn name_is_free(existing: &Vec<Vec<u8>>, name: &Vec<u8>) -> (free: bool)
    ensures
        free == name_free(existing@, name@),
{
    let mut i: usize = 0;
    while i < existing.len()
        invariant
            i <= existing@.len(),
            forall|k: int| 0 <= k < i ==> #[trigger] existing@[k]@ != name@,
        decreases existing@.len() - i,
    {
        if bytes_equal(&existing[i], name) {
            return false;
        }
        i = i + 1;
    }
    true
}

/// The name of the map numbered `id`, where no entry among `existing` is
/// that text.
pub fn map_name_if_free(id: u32, existing: &Vec<Vec<u8>>) -> (name: Option<Vec<u8>>)
    ensures
        name is Some <==> name_free(existing@, map_name(id as nat)),
        name matches Some(n) ==> n@ == map_name(id as nat),
{
    let name = map_file_name(id);
    if name_is_free(existing, &name) {
        Some(name)
    } else {
        None
    }
}

/// Draws a map number from `0..=MAX_MAP_ID` at random and gives its name
/// where no entry among `existing` is that text.
pub fn try_map_name(rng: &mut ThreadRng, existing: &Vec<Vec<u8>>) -> (name: Option<Vec<u8>>)
    ensures
        name matches Some(n) ==> exists|id: nat|
            id <= MAX_MAP_ID && n@ == map_name(id) && name_free(existing@, map_name(id)),
        name is None ==> exists|id: nat| id <= MAX_MAP_ID && !name_free(existing@, #[trigger] map_name(id)),
{
    let id = gen_range_inclusive(rng, 0, MAX_MAP_ID);
    let name = map_name_if_free(id, existing);
    assert(id as nat <= MAX_MAP_ID);
    name
}

/// The map that a save file describes, given its parts; `None` where its
/// tiles do not fill its grid or its goal lies off the grid.
pub fn read_map(dimensions: (u16, u16), tile_states: Vec<TileState>, goal: Option<TileCoord>) -> (map: Option<TileMap>)
    ensures
        map is Some <==> (tile_states@.len() == dimensions.0 * dimensions.1 && (goal matches Some(p) ==> p.x
            < dimensions.0 && p.y < dimensions.1)),
        map matches Some(m) ==> m.wf() && m.dimensions == dimensions && m.tile_states@ == tile_states@
            && m.goal.position == goal,
{
    let w = dimensions.0 as usize;
    let h = dimensions.1 as usize;
    proof {
        assert(w * h <= 65535 * 65535) by (nonlinear_arith)
            requires
                w <= 65535,
                h <= 65535,
        ;
    }
    if tile_states.len() != w * h {
        return None;
    }
    match goal {
        Some(p) => {
            if p.x >= dimensions.0 || p.y >= dimensions.1 {
                return None;
            }
        },
        None => {},
    }
    Some(TileMap { dimensions, tile_states, goal: Goal { position: goal } })
}

} // verus!
