//! The ramp of a benchmark: how many players each rung adds, and what they are called.

use vstd::prelude::*;
use crate::number;

verus! {

/// One rung: how many players are to be live, and how many of them it adds.
#[derive(Clone, Copy, Debug, PartialEq, Eq, Structural)]
pub struct RampStep {
    pub target: usize,
    pub spawn: usize,
}

/// What is wrong with a stage that follows so many live players, if anything is.
pub open spec fn stage_fault(live: int, target: usize) -> Option<Seq<char>> {
    if target == 0 {
        Some("a ramp stage must be > 0"@)
    } else if target <= live {
        Some(
            "ramp stages must strictly increase (got "@ + number::decimal(target as nat)
                + " after "@ + number::decimal(live as nat)
                + ") \u{2014} this harness only ever ADDS players"@,
        )
    } else {
        None
    }
}

/// The players that are live before stage `i`.
pub open spec fn live_before(stages: Seq<usize>, i: int) -> int {
    if i <= 0 {
        0
    } else {
        stages[i - 1] as int
    }
}

/// The first fault of the first `n` stages.
pub open spec fn first_fault(stages: Seq<usize>, n: nat) -> Option<Seq<char>>
    decreases n,
{
    if n == 0 {
        None
    } else {
        match first_fault(stages, (n - 1) as nat) {
            Some(e) => Some(e),
            None => stage_fault(live_before(stages, n - 1), stages[n - 1]),
        }
    }
}

/// The rungs of sound stages.
pub open spec fn rungs(stages: Seq<usize>) -> Seq<RampStep> {
    Seq::new(
        stages.len(),
        |i: int|
            RampStep {
                target: stages[i],
                spawn: (stages[i] - live_before(stages, i)) as usize,
            },
    )
}

/// The plan of a ramp that only ever adds players.
pub open spec fn plan(stages: Seq<usize>) -> Result<Seq<RampStep>, Seq<char>> {
    if stages.len() == 0 {
        Err("empty ramp: pass --stages 50,100,150,200"@)
    } else {
        match first_fault(stages, stages.len()) {
            Some(e) => Err(e),
            None => Ok(rungs(stages)),
        }
    }
}

proof fn lemma_fault_stays(stages: Seq<usize>, n: nat, m: nat)
    requires
        n <= m,
    ensures
        first_fault(stages, n) is Some ==> first_fault(stages, m) == first_fault(stages, n),
    decreases m - n,
{
    if n < m {
        lemma_fault_stays(stages, n + 1, m);
    }
}

/// Turns stages into a plan that only ever adds players.
pub fn plan_ramp(stages: &[usize]) -> (r: Result<Vec<RampStep>, String>)
    ensures
        match (r, plan(stages@)) {
            (Ok(v), Ok(w)) => v@ == w,
            (Err(said), Err(words)) => said@ == words,
            _ => false,
        },
{
    if stages.len() == 0 {
        return Err("empty ramp: pass --stages 50,100,150,200".to_owned());
    }
    let mut v: Vec<RampStep> = Vec::new();
    let mut live: usize = 0;
    for i in 0..stages.len()
        invariant
            stages@.len() > 0,
            live == live_before(stages@, i as int),
            first_fault(stages@, i as nat) is None,
            v@ == rungs(stages@).take(i as int),
    {
        let target: usize = stages[i];
        proof {
            lemma_fault_stays(stages@, (i + 1) as nat, stages@.len());
        }
        if target == 0 {
            return Err("a ramp stage must be > 0".to_owned());
        }
        if target <= live {
            let mut e: String = "ramp stages must strictly increase (got ".to_owned();
            number::push_decimal(&mut e, target as u64);
            e.append(" after ");
            number::push_decimal(&mut e, live as u64);
            e.append(") \u{2014} this harness only ever ADDS players");
            return Err(e);
        }
        v.push(RampStep { target, spawn: target - live });
        assert(rungs(stages@).take(i + 1) =~= rungs(stages@).take(i as int).push(
            rungs(stages@)[i as int],
        ));
        live = target;
    }
    assert(rungs(stages@).take(stages@.len() as int) =~= rungs(stages@));
    Ok(v)
}

/// The players that the first `n` rungs add together.
pub open spec fn spawned(plan: Seq<RampStep>, n: nat) -> int
    decreases n,
{
    if n == 0 {
        0
    } else {
        spawned(plan, (n - 1) as nat) + plan[n - 1].spawn
    }
}

/// A ramp adds up: after every rung exactly its target of players was added, and every rung adds
/// some.
pub proof fn a_ramp_adds_up(stages: Seq<usize>, n: nat)
    requires
        plan(stages) is Ok,
        0 < n <= stages.len(),
    ensures
        plan(stages)->Ok_0.len() == stages.len(),
        spawned(plan(stages)->Ok_0, n) == plan(stages)->Ok_0[n - 1].target,
        plan(stages)->Ok_0[n - 1].target == stages[n - 1],
        plan(stages)->Ok_0[n - 1].spawn > 0,
    decreases n,
{
    lemma_fault_stays(stages, n, stages.len());
    lemma_fault_stays(stages, (n - 1) as nat, stages.len());
    if n > 1 {
        a_ramp_adds_up(stages, (n - 1) as nat);
    } else {
        assert(spawned(plan(stages)->Ok_0, 0) == 0);
    }
}

/// The rungs to run: a ramp, or, where the only stage is zero, one window that connects nobody.
pub open spec fn to_run(stages: Seq<usize>) -> Result<Seq<RampStep>, Seq<char>> {
    if stages == seq![0usize] {
        Ok(seq![RampStep { target: 0, spawn: 0 }])
    } else {
        plan(stages)
    }
}

/// The rungs to run: a ramp, or, where the only stage is zero, one window that connects nobody.
pub fn rungs_to_run(stages: &[usize]) -> (r: Result<Vec<RampStep>, String>)
    ensures
        match (r, to_run(stages@)) {
            (Ok(v), Ok(w)) => v@ == w,
            (Err(said), Err(words)) => said@ == words,
            _ => false,
        },
{
    if stages.len() == 1 && stages[0] == 0 {
        assert(stages@ =~= seq![0usize]);
        let v: Vec<RampStep> = vec![RampStep { target: 0, spawn: 0 }];
        assert(v@ =~= seq![RampStep { target: 0, spawn: 0 }]);
        return Ok(v);
    }
    plan_ramp(stages)
}

// ------------------------------------------------------------------------------------------
//  Names
// ------------------------------------------------------------------------------------------

/// The letter of a digit to the base twenty-six.
pub open spec fn letter(d: int) -> char {
    (97 + d) as char
}

/// A number as three letters.
pub open spec fn three_letters(n: int) -> Seq<char> {
    seq![letter(n / 676 % 26), letter(n / 26 % 26), letter(n % 26)]
}

fn letter_of(d: usize) -> (c: char)
    requires
        d < 26,
    ensures
        c == letter(d as int),
{
    (97 + d as u8) as char
}

/// The name of a synthetic player: a prefix, and its number as three letters.
pub fn char_name_for(prefix: &str, idx: usize) -> (name: String)
    ensures
        name@ == prefix@ + three_letters(idx as int),
{
    let mut name: String = prefix.to_owned();
    name.push(letter_of(idx / 676 % 26));
    name.push(letter_of(idx / 26 % 26));
    name.push(letter_of(idx % 26));
    assert(name@ =~= prefix@ + three_letters(idx as int));
    name
}

/// Names are letters only, and below 17576 players no two have the same.
pub proof fn names_are_distinct(prefix: Seq<char>, i: int, j: int)
    requires
        0 <= i < 17576,
        0 <= j < 17576,
        i != j,
    ensures
        prefix + three_letters(i) != prefix + three_letters(j),
        forall|k: int| 0 <= k < 3 ==> 'a' <= #[trigger] three_letters(i)[k] <= 'z',
{
    let a = three_letters(i);
    let b = three_letters(j);
    let n = prefix.len() as int;
    if prefix + a == prefix + b {
        assert((prefix + a)[n] == a[0]);
        assert((prefix + b)[n] == b[0]);
        assert((prefix + a)[n + 1] == a[1]);
        assert((prefix + b)[n + 1] == b[1]);
        assert((prefix + a)[n + 2] == a[2]);
        assert((prefix + b)[n + 2] == b[2]);
        assert(i / 676 % 26 == j / 676 % 26);
        assert(i / 26 % 26 == j / 26 % 26);
        assert(i % 26 == j % 26);
    }
}

/// A number with at least four digits.
pub open spec fn four_digits(n: nat) -> Seq<char> {
    let d = number::decimal(n);
    if n < 10 {
        "000"@ + d
    } else if n < 100 {
        "00"@ + d
    } else if n < 1000 {
        "0"@ + d
    } else {
        d
    }
}

/// The account of a synthetic player: a prefix, and its number with at least four digits.
pub fn account_for(prefix: &str, idx: usize) -> (name: String)
    ensures
        name@ == prefix@ + four_digits(idx as nat),
{
    let mut name: String = prefix.to_owned();
    if idx < 10 {
        name.append("000");
    } else if idx < 100 {
        name.append("00");
    } else if idx < 1000 {
        name.append("0");
    }
    number::push_decimal(&mut name, idx as u64);
    assert(name@ =~= prefix@ + four_digits(idx as nat));
    name
}

/// A ramp is planned exactly where it has a stage, each is positive, and each is larger than the one
/// before it.
pub proof fn a_ramp_only_climbs(stages: Seq<usize>)
    ensures
        plan(stages) is Ok <==> stages.len() > 0 && stages[0] > 0 && forall|i: int|
            1 <= i < stages.len() ==> stages[i - 1] < #[trigger] stages[i],
{
    lemma_climbs(stages, stages.len());
}

proof fn lemma_climbs(stages: Seq<usize>, n: nat)
    requires
        n <= stages.len(),
    ensures
        first_fault(stages, n) is None <==> (n > 0 ==> stages[0] > 0) && forall|i: int|
            1 <= i < n ==> stages[i - 1] < #[trigger] stages[i],
    decreases n,
{
    if n > 0 {
        lemma_climbs(stages, (n - 1) as nat);
        let k = n - 1;
        if k > 0 && (forall|i: int| 1 <= i < n ==> stages[i - 1] < #[trigger] stages[i]) {
            assert(stages[k - 1] < stages[k]);
        }
    }
}

/// A run adds to a ramp only the window that connects nobody, which the stage zero alone asks for.
pub proof fn an_empty_window_can_be_run(stages: Seq<usize>)
    ensures
        to_run(seq![0usize]) matches Ok(v) && v.len() == 1 && v[0].target == 0 && v[0].spawn == 0,
        stages.len() != 1 || stages[0] != 0 ==> to_run(stages) == plan(stages),
{
    if stages == seq![0usize] {
        assert(stages[0] == 0);
    }
}

/// A name's three letters are its number to the base twenty-six, from `a` to `z`.
pub proof fn a_name_tells_its_number(n: int)
    requires
        0 <= n < 17576,
    ensures
        ({
            let s = three_letters(n);
            s.len() == 3 && 676 * (s[0] as int - 97) + 26 * (s[1] as int - 97) + (s[2] as int - 97) == n
        }),
{
    let a = n / 676 % 26;
    let b = n / 26 % 26;
    let c = n % 26;
    assert(letter(a) as int == 97 + a);
    assert(letter(b) as int == 97 + b);
    assert(letter(c) as int == 97 + c);
    assert(676 * a + 26 * b + c == n);
}

/// An account's number has four digits, with zeros before it, as long as it is below ten thousand.
pub proof fn an_account_has_four_digits(n: nat)
    requires
        n < 10_000,
    ensures
        ({
            let s = four_digits(n);
            &&& s.len() == 4
            &&& 1000 * (s[0] as int - 48) + 100 * (s[1] as int - 48) + 10 * (s[2] as int - 48) + (
            s[3] as int - 48) == n
            &&& forall|i: int| 0 <= i < 4 ==> '0' <= #[trigger] s[i] <= '9'
        }),
{
    reveal_with_fuel(number::decimal, 5);
    reveal_strlit("000");
    reveal_strlit("00");
    reveal_strlit("0");
}

} // verus!
