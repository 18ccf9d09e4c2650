//! A machine of wheels with painted faces: what it shows after some pulls
//! of the lever, and the coins it pays for eyes and mouths alike.

use crate::grid::rows_view;
use crate::text::{
    chars_of, copy_range, decimal, digits_of, is_plain, join_texts, joined, lines, parse_usize,
    spec_parse_usize, split, split_at, split_lines, text_of, texts_view, trim, trimmed,
};
use num::Integer;
use std::collections::HashMap;
use vstd::prelude::*;
use vstd::std_specs::hash::group_hash_axioms;
use vstd::string::StringSliceAdditionalSpecFns;
use vstd::utf8::encode_utf8;

verus! {

broadcast use group_hash_axioms;

/// One wheel of the machine.
pub struct Wheel {
    /// By how many faces the wheel turns at each pull.
    pub moves: usize,
    /// The faces of the wheel, in the order in which they come up.
    pub faces: Vec<String>,
}

/// The faces that `faces` hold, as plain text.
pub open spec fn faces_view(faces: Seq<String>) -> Seq<Seq<char>> {
    Seq::new(faces.len(), |i: int| faces[i]@)
}

/// The model of a wheel: its turn at a pull, and its faces.
pub type Turning = (nat, Seq<Seq<char>>);

/// The wheels `wheels` as plain values.
pub open spec fn turning(wheels: Seq<Wheel>) -> Seq<Turning> {
    Seq::new(wheels.len(), |i: int| (wheels[i].moves as nat, faces_view(wheels[i].faces@)))
}

/// In how many parts of four characters a line falls; the last may be
/// shorter.
pub open spec fn chunks(line: Seq<char>) -> int {
    (line.len() as int + 3) / 4
}

/// Part `i` of a line.
pub open spec fn chunk(line: Seq<char>, i: int) -> Seq<char> {
    line.subrange(
        4 * i,
        if 4 * i + 4 <= line.len() {
            4 * i + 4
        } else {
            line.len() as int
        },
    )
}

/// The face that `line` gives to wheel `w`: part `w` of it without the
/// white space around it, unless nothing is left.
pub open spec fn face_at(line: Seq<char>, w: int) -> Option<Seq<char>> {
    if 0 <= w < chunks(line) && trimmed(chunk(line, w)).len() > 0 {
        Some(trimmed(chunk(line, w)))
    } else {
        None
    }
}

/// The faces that the first `n` lines after the second give to wheel `w`.
pub open spec fn faces_of(rows: Seq<Seq<char>>, w: int, n: nat) -> Seq<Seq<char>>
    decreases n,
{
    if n == 0 {
        Seq::empty()
    } else {
        let above = faces_of(rows, w, (n - 1) as nat);
        match face_at(rows[n as int + 1], w) {
            Some(face) => above.push(face),
            None => above,
        }
    }
}

/// The machine can be read from `rows`: the first line lists the turns of
/// the wheels, the second is there, and no line has a face for a wheel
/// that is not there.
pub open spec fn machine_drawn(rows: Seq<Seq<char>>) -> bool {
    &&& rows.len() >= 2
    &&& forall|w: int|
        0 <= w < split(rows[0], ',').len() ==> spec_parse_usize(#[trigger] split(rows[0], ',')[w])
            is Some
    &&& forall|n: int, w: int|
        2 <= n < rows.len() && (#[trigger] face_at(rows[n], w)) is Some ==> w < split(
            rows[0],
            ',',
        ).len()
}

/// The wheels that `rows` draw.
pub open spec fn machine_of(rows: Seq<Seq<char>>) -> Seq<Turning> {
    Seq::new(
        split(rows[0], ',').len(),
        |w: int|
            (
                spec_parse_usize(split(rows[0], ',')[w]).unwrap() as nat,
                faces_of(rows, w, (rows.len() - 2) as nat),
            ),
    )
}

/// Reads the wheels of the machine drawn in `input`.
pub fn parse(input: &str) -> (wheels: Vec<Wheel>)
    requires
        machine_drawn(lines(input@)),
    ensures
        turning(wheels@) == machine_of(lines(input@)),
{
    let text = chars_of(input);
    let rows = split_lines(&text);
    let ghost drawn = lines(text@);
    let first = split_at(rows[0].as_slice(), ',');
    let ghost turns = split(drawn[0], ',');
    proof {
        assert(drawn[0] == rows@[0]@);
    }
    let mut wheels: Vec<Wheel> = Vec::new();
    let mut w: usize = 0;
    while w < first.len()
        invariant
            w <= first.len(),
            turns == rows_view(first@),
            forall|k: int| 0 <= k < turns.len() ==> spec_parse_usize(#[trigger] turns[k]) is Some,
            wheels@.len() == w,
            forall|k: int|
                0 <= k < w ==> (#[trigger] wheels@[k]).moves == spec_parse_usize(turns[k]).unwrap()
                    && wheels@[k].faces@.len() == 0,
        decreases first.len() - w,
    {
        proof {
            assert(turns[w as int] == first@[w as int]@);
        }
        match parse_usize(first[w].as_slice()) {
            Some(moves) => wheels.push(Wheel { moves, faces: Vec::new() }),
            None => {},
        }
        w += 1;
    }
    proof {
        assert forall|k: int| 0 <= k < wheels@.len() implies faces_view(
            (#[trigger] wheels@[k]).faces@,
        ) == faces_of(drawn, k, 0) by {
            assert(faces_view(wheels@[k].faces@) =~= Seq::<Seq<char>>::empty());
        }
    }

    let mut n: usize = 2;
    while n < rows.len()
        invariant
            2 <= n <= rows.len(),
            drawn == rows_view(rows@),
            machine_drawn(drawn),
            turns == split(drawn[0], ','),
            wheels@.len() == turns.len(),
            forall|k: int|
                0 <= k < wheels@.len() ==> (#[trigger] wheels@[k]).moves == spec_parse_usize(
                    turns[k],
                ).unwrap() && faces_view(wheels@[k].faces@) == faces_of(drawn, k, (n - 2) as nat),
        decreases rows.len() - n,
    {
        let line = &rows[n];
        let count: usize = if line.len() > usize::MAX - 3 {
            usize::MAX / 4 + 1
        } else {
            (line.len() + 3) / 4
        };
        let ghost cells = drawn[n as int];
        proof {
            assert(cells == line@);
        }
        let mut i: usize = 0;
        while i < count
            invariant
                i <= count,
                count == chunks(cells),
                cells == line@,
                cells.len() == line.len(),
                cells == drawn[n as int],
                2 <= n < rows.len(),
                drawn == rows_view(rows@),
                machine_drawn(drawn),
                turns == split(drawn[0], ','),
                wheels@.len() == turns.len(),
                forall|k: int|
                    0 <= k < wheels@.len() ==> (#[trigger] wheels@[k]).moves == spec_parse_usize(
                        turns[k],
                    ).unwrap() && faces_view(wheels@[k].faces@) == (if k < i {
                        faces_of(drawn, k, (n - 1) as nat)
                    } else {
                        faces_of(drawn, k, (n - 2) as nat)
                    }),
            decreases count - i,
        {
            assert(4 * i < cells.len());
            let from: usize = 4 * i;
            let to: usize = if line.len() - from >= 4 {
                from + 4
            } else {
                line.len()
            };
            let part = copy_range(line.as_slice(), from, to);
            let face = trim(part.as_slice());
            proof {
                assert(part@ == chunk(cells, i as int));
            }
            if face.len() > 0 {
                proof {
                    assert(face_at(drawn[n as int], i as int) is Some);
                }
                let ghost before = faces_view(wheels@[i as int].faces@);
                let ghost others = wheels@;
                let label = text_of(face.as_slice());
                wheels[i].faces.push(label);
                proof {
                    assert(faces_view(wheels@[i as int].faces@) =~= before.push(face@));
                    assert forall|k: int| 0 <= k < wheels@.len() && k != i implies wheels@[k]
                        == others[k] by {}
                }
            }
            i += 1;
        }
        proof {
            assert forall|k: int| 0 <= k < wheels@.len() implies faces_view(
                (#[trigger] wheels@[k]).faces@,
            ) == faces_of(drawn, k, (n - 1) as nat) by {
                if k >= count {
                    assert(face_at(drawn[n as int], k) is None);
                }
            }
        }
        n += 1;
    }
    proof {
        assert(turning(wheels@) =~= machine_of(drawn));
    }
    wheels
}

/// Every wheel has a face.
pub open spec fn all_faced(wheels: Seq<Turning>) -> bool {
    forall|w: int| 0 <= w < wheels.len() ==> (#[trigger] wheels[w]).1.len() > 0
}

/// The face that wheel `w` shows after `pulls` pulls.
pub open spec fn shown_by(wheels: Seq<Turning>, w: int, pulls: nat) -> Seq<char> {
    wheels[w].1[((pulls * wheels[w].0) % wheels[w].1.len()) as int]
}

/// The faces that the wheels show after `pulls` pulls.
pub open spec fn shown(wheels: Seq<Turning>, pulls: nat) -> Seq<Seq<char>> {
    Seq::new(wheels.len(), |w: int| shown_by(wheels, w, pulls))
}

/// What the machine shows after `pulls` pulls: the faces with a blank
/// between each two.
pub open spec fn display(wheels: Seq<Turning>, pulls: nat) -> Seq<char> {
    joined(shown(wheels, pulls), seq![' '])
}

/// The turns of the wheels over `pulls` pulls can be counted in `usize`.
pub open spec fn turns_fit(wheels: Seq<Turning>, pulls: nat) -> bool {
    forall|w: int| 0 <= w < wheels.len() ==> pulls * (#[trigger] wheels[w]).0 <= usize::MAX
}

/// What the machine shows after `pulls` pulls.
pub fn show(wheels: &Vec<Wheel>, pulls: usize) -> (r: String)
    requires
        all_faced(turning(wheels@)),
        turns_fit(turning(wheels@), pulls as nat),
    ensures
        r@ == display(turning(wheels@), pulls as nat),
{
    let ghost model = turning(wheels@);
    let mut parts: Vec<&str> = Vec::new();
    let mut w: usize = 0;
    while w < wheels.len()
        invariant
            w <= wheels.len(),
            model == turning(wheels@),
            all_faced(model),
            turns_fit(model, pulls as nat),
            parts@.len() == w,
            forall|k: int| 0 <= k < w ==> (#[trigger] parts@[k])@ == shown_by(model, k, pulls as nat),
        decreases wheels.len() - w,
    {
        let wheel = &wheels[w];
        proof {
            assert(model[w as int].1.len() > 0);
            assert(pulls * model[w as int].0 <= usize::MAX);
            assert(model[w as int].1.len() == wheel.faces@.len());
        }
        let at = (pulls * wheel.moves) % wheel.faces.len();
        parts.push(wheel.faces[at].as_str());
        w += 1;
    }
    proof {
        reveal_strlit(" ");
        assert(" "@ =~= seq![' ']);
        assert(texts_view(parts@) =~= shown(model, pulls as nat));
    }
    join_texts(&parts, " ")
}

/// What the machine drawn in `input` shows after a hundred pulls.
pub fn part1(input: &str) -> (r: String)
    requires
        is_plain(input@),
        machine_drawn(lines(input@)),
        all_faced(machine_of(lines(input@))),
        turns_fit(machine_of(lines(input@)), 100),
    ensures
        r@ == display(machine_of(lines(input@)), 100),
{
    let wheels = parse(input);
    show(&wheels, 100)
}

/// How many of the first `n` bytes at even places of `bytes` are `b`.
pub open spec fn tally(bytes: Seq<u8>, b: u8, n: nat) -> nat
    decreases n,
{
    if n == 0 {
        0
    } else {
        tally(bytes, b, (n - 1) as nat) + if (n - 1) % 2 == 0 && bytes[n - 1] == b {
            1nat
        } else {
            0nat
        }
    }
}

/// The coins for a sign that is shown `count` times: one for each time
/// after the second.
pub open spec fn excess(count: nat) -> nat {
    if count > 2 {
        (count - 2) as nat
    } else {
        0
    }
}

/// The coins for the signs below `k` among the bytes at even places of
/// `bytes`.
pub open spec fn coins_below(bytes: Seq<u8>, k: nat) -> nat
    decreases k,
{
    if k == 0 {
        0
    } else {
        coins_below(bytes, (k - 1) as nat) + excess(tally(bytes, (k - 1) as u8, bytes.len()))
    }
}

/// The coins that the machine pays for what it shows: of each face the
/// first and the third character count, the eyes, and a sign among them
/// pays a coin for each time it is there after the second.
pub open spec fn coins(bytes: Seq<u8>) -> nat {
    coins_below(bytes, 256)
}

/// The signs below `k` at the first `n` places, counted together.
pub open spec fn tallied_below(bytes: Seq<u8>, k: nat, n: nat) -> nat
    decreases k,
{
    if k == 0 {
        0
    } else {
        tallied_below(bytes, (k - 1) as nat, n) + tally(bytes, (k - 1) as u8, n)
    }
}

/// One more place adds at most one to the signs counted together.
pub proof fn lemma_tallied_step(bytes: Seq<u8>, k: nat, n: nat)
    requires
        k <= 256,
        n > 0,
    ensures
        tallied_below(bytes, k, n) <= tallied_below(bytes, k, (n - 1) as nat) + (if bytes[n - 1]
            < k {
            1nat
        } else {
            0nat
        }),
    decreases k,
{
    if k > 0 {
        lemma_tallied_step(bytes, (k - 1) as nat, n);
    }
}

/// There are no more signs than places.
pub proof fn lemma_tallied_bounded(bytes: Seq<u8>, k: nat, n: nat)
    requires
        k <= 256,
    ensures
        tallied_below(bytes, k, n) <= n,
    decreases n,
{
    if n > 0 {
        lemma_tallied_bounded(bytes, k, (n - 1) as nat);
        lemma_tallied_step(bytes, k, n);
    } else {
        lemma_tallied_none(bytes, k);
    }
}

/// No places hold no signs.
pub proof fn lemma_tallied_none(bytes: Seq<u8>, k: nat)
    ensures
        tallied_below(bytes, k, 0) == 0,
    decreases k,
{
    if k > 0 {
        lemma_tallied_none(bytes, (k - 1) as nat);
    }
}

/// The coins are no more than the signs counted.
pub proof fn lemma_coins_bounded(bytes: Seq<u8>, k: nat)
    requires
        k <= 256,
    ensures
        coins_below(bytes, k) <= tallied_below(bytes, k, bytes.len()),
    decreases k,
{
    if k > 0 {
        lemma_coins_bounded(bytes, (k - 1) as nat);
    }
}

/// The coins that the machine pays for showing `faces`; `counts` must be
/// empty, and holds afterwards how often each sign is among the eyes.
pub fn score(faces: &str, counts: &mut HashMap<u8, u64>) -> (r: u64)
    requires
        old(counts)@.len() == 0,
        old(counts)@.dom().finite(),
    ensures
        r == coins(faces.spec_bytes()),
        forall|k: u8| #[trigger]
            final(counts)@.contains_key(k) <==> tally(
                faces.spec_bytes(),
                k,
                faces.spec_bytes().len(),
            ) > 0,
        forall|k: u8| #[trigger]
            final(counts)@.contains_key(k) ==> final(counts)@[k] == tally(
                faces.spec_bytes(),
                k,
                faces.spec_bytes().len(),
            ),
{
    let b = faces.as_bytes();
    let ghost bytes = b@;
    proof {
        assert forall|k: u8| !counts@.contains_key(k) by {
            if counts@.contains_key(k) {
                assert(counts@.dom().contains(k));
                assert(counts@.dom().len() > 0) by {
                    vstd::set_lib::lemma_set_empty_equivalency_len(counts@.dom());
                }
            }
        }
    }
    // count every other char
    let mut i: usize = 0;
    while i < b.len()
        invariant
            i <= b.len(),
            bytes == b@,
            forall|k: u8| #[trigger] counts@.contains_key(k) <==> tally(bytes, k, i as nat) > 0,
            forall|k: u8| #[trigger] counts@.contains_key(k) ==> counts@[k] == tally(bytes, k, i as nat),
            forall|k: u8| #[trigger] tally(bytes, k, i as nat) <= i,
        decreases b.len() - i,
    {
        if i % 2 == 0 {
            let sign = b[i];
            let seen: u64 = match counts.get(&sign) {
                Some(c) => *c,
                None => 0,
            };
            counts.insert(sign, seen + 1);
        }
        let ghost before = i as nat;
        i += 1;
        proof {
            assert forall|k: u8| #[trigger] tally(bytes, k, i as nat) <= i by {
                assert(tally(bytes, k, before) <= before);
                assert((i - 1) as nat == before);
            }
        }
    }
    let mut total: u64 = 0;
    let mut k: u16 = 0;
    proof {
        lemma_tallied_bounded(bytes, 256, bytes.len());
        lemma_coins_bounded(bytes, 256);
    }
    while k < 256
        invariant
            k <= 256,
            bytes == b@,
            forall|s: u8| #[trigger] counts@.contains_key(s) <==> tally(bytes, s, bytes.len()) > 0,
            forall|s: u8| #[trigger]
                counts@.contains_key(s) ==> counts@[s] == tally(bytes, s, bytes.len()),
            total == coins_below(bytes, k as nat),
            coins_below(bytes, 256) <= usize::MAX,
        decreases 256 - k,
    {
        let sign = k as u8;
        proof {
            lemma_coins_grow(bytes, (k + 1) as nat, 256);
        }
        match counts.get(&sign) {
            Some(c) => {
                if *c > 2 {
                    total += *c - 2;
                }
            },
            None => {},
        }
        k += 1;
    }
    total
}

/// The coins for more signs are no fewer.
pub proof fn lemma_coins_grow(bytes: Seq<u8>, m: nat, n: nat)
    requires
        m <= n,
    ensures
        coins_below(bytes, m) <= coins_below(bytes, n),
    decreases n,
{
    if m < n {
        lemma_coins_grow(bytes, m, (n - 1) as nat);
    }
}

/// The coins that the machine pays at pull `pull`.
pub open spec fn coins_at(wheels: Seq<Turning>, pull: nat) -> nat {
    coins(encode_utf8(display(wheels, pull)))
}

/// The coins that the machine pays over the first `pulls` pulls.
pub open spec fn paid(wheels: Seq<Turning>, pulls: nat) -> nat
    decreases pulls,
{
    if pulls == 0 {
        0
    } else {
        paid(wheels, (pulls - 1) as nat) + coins_at(wheels, pulls)
    }
}

/// What the machine shows at pull `pull` it has not shown at a pull before.
pub open spec fn fresh(wheels: Seq<Turning>, pull: nat) -> bool {
    forall|before: nat| 1 <= before < pull ==> #[trigger] display(wheels, before) != display(
        wheels,
        pull,
    )
}

/// The machine shows something new at each of the first `n` pulls, and at
/// the next something that it has shown before.
pub open spec fn comes_round(wheels: Seq<Turning>, n: nat) -> bool {
    &&& n >= 1
    &&& forall|pull: nat| 1 <= pull <= n ==> #[trigger] fresh(wheels, pull)
    &&& !fresh(wheels, n + 1)
}

/// After how many pulls the machine comes round.
pub open spec fn round_of(wheels: Seq<Turning>) -> nat {
    choose|n: nat| comes_round(wheels, n)
}

/// The coins over `pulls` pulls of a machine that pays over and over what
/// it pays in the first `n` pulls.
pub open spec fn payout(wheels: Seq<Turning>, pulls: nat, n: nat) -> nat {
    (pulls / n) * paid(wheels, n) + paid(wheels, pulls % n)
}

/// The machine comes round after `n` pulls, and what it pays over `pulls`
/// pulls can be counted.
pub open spec fn pays_out(wheels: Seq<Turning>, pulls: nat, n: nat) -> bool {
    &&& comes_round(wheels, n)
    &&& n < usize::MAX
    &&& turns_fit(wheels, n + 1)
    &&& payout(wheels, pulls, n) <= u64::MAX
    &&& paid(wheels, n) <= u64::MAX
}

/// The machine comes round after one number of pulls only.
pub proof fn lemma_round_unique(wheels: Seq<Turning>, m: nat, n: nat)
    requires
        comes_round(wheels, m),
        comes_round(wheels, n),
    ensures
        m == n,
{
    if m < n {
        assert(fresh(wheels, m + 1));
    }
    if n < m {
        assert(fresh(wheels, n + 1));
    }
}

/// What is paid over more pulls is no less.
pub proof fn lemma_paid_grows(wheels: Seq<Turning>, m: nat, n: nat)
    requires
        m <= n,
    ensures
        paid(wheels, m) <= paid(wheels, n),
    decreases n,
{
    if m < n {
        lemma_paid_grows(wheels, m, (n - 1) as nat);
    }
}

/// Quotient and remainder with `Integer::div_rem` of the crate num, which
/// for `u64` is the pair of `/` and `%`.
#[verifier::external_body]
fn div_rem(a: u64, b: u64) -> (r: (u64, u64))
    requires
        b != 0,
    ensures
        r.0 == a / b,
        r.1 == a % b,
{
    a.div_rem(&b)
}

/// The coins that the machine drawn in `input` pays over `pulls` pulls: it
/// is pulled until it shows what it has shown before, and pays the same
/// from there on.
pub fn part2(input: &str, pulls: u64) -> (r: u64)
    requires
        is_plain(input@),
        machine_drawn(lines(input@)),
        all_faced(machine_of(lines(input@))),
        exists|n: nat| pays_out(machine_of(lines(input@)), pulls as nat, n),
    ensures
        r == payout(
            machine_of(lines(input@)),
            pulls as nat,
            round_of(machine_of(lines(input@))),
        ),
{
    let wheels = parse(input);
    let ghost model = turning(wheels@);
    let ghost last = choose|n: nat| pays_out(model, pulls as nat, n);

    let mut counts: HashMap<u8, u64> = HashMap::new();
    let mut rounds: Vec<u64> = Vec::new();
    let mut seen: Vec<String> = Vec::new();

    loop
        invariant
            model == turning(wheels@),
            all_faced(model),
            pays_out(model, pulls as nat, last),
            seen@.len() == rounds@.len(),
            rounds@.len() <= last,
            forall|j: int| 0 <= j < seen@.len() ==> (#[trigger] seen@[j])@ == display(
                model,
                (j + 1) as nat,
            ),
            forall|j: int| 0 <= j < rounds@.len() ==> #[trigger] rounds@[j] == coins_at(
                model,
                (j + 1) as nat,
            ),
            forall|pull: nat| 1 <= pull <= rounds@.len() ==> #[trigger] fresh(model, pull),
        ensures
            seen@.len() == rounds@.len(),
            rounds@.len() == last,
            forall|j: int| 0 <= j < rounds@.len() ==> #[trigger] rounds@[j] == coins_at(
                model,
                (j + 1) as nat,
            ),
        decreases last - rounds@.len(),
    {
        counts.clear();
        let pull: usize = rounds.len() + 1;
        proof {
            assert forall|w: int| 0 <= w < model.len() implies pull * (#[trigger] model[w]).0
                <= usize::MAX by {
                assert((last + 1) * model[w].0 <= usize::MAX);
                assert(pull * model[w].0 <= (last + 1) * model[w].0) by (nonlinear_arith)
                    requires
                        pull <= last + 1,
                        model[w].0 >= 0,
                ;
            }
        }
        let faces = show(&wheels, pull);

        let mut old = false;
        let mut j: usize = 0;
        while j < seen.len()
            invariant
                j <= seen.len(),
                pull == seen@.len() + 1,
                faces@ == display(model, pull as nat),
                forall|k: int| 0 <= k < seen@.len() ==> (#[trigger] seen@[k])@ == display(
                    model,
                    (k + 1) as nat,
                ),
                old <==> exists|k: int| 0 <= k < j && (#[trigger] seen@[k])@ == faces@,
            decreases seen.len() - j,
        {
            if seen[j] == faces {
                old = true;
            }
            j += 1;
        }
        if old {
            // loop found
            proof {
                let k = choose|k: int| 0 <= k < seen@.len() && (#[trigger] seen@[k])@ == faces@;
                assert(display(model, (k + 1) as nat) == display(model, pull as nat));
                assert(!fresh(model, pull as nat));
                assert(rounds@.len() >= 1) by {
                    if rounds@.len() == 0 {
                        assert(false);
                    }
                }
                assert(comes_round(model, rounds@.len()));
                lemma_round_unique(model, rounds@.len(), last);
            }
            break ;
        }
        proof {
            assert forall|before: nat| 1 <= before < pull implies #[trigger] display(model, before)
                != display(model, pull as nat) by {
                assert(seen@[before - 1]@ == display(model, before));
            }
            assert(fresh(model, pull as nat));
            if rounds@.len() == last {
                assert(!fresh(model, last + 1));
            }
        }
        let coins = score(faces.as_str(), &mut counts);
        seen.push(faces);
        rounds.push(coins);
    }
    proof {
        lemma_round_unique(model, last, round_of(model));
    }

    let mut loop_total: u64 = 0;
    let mut i: usize = 0;
    while i < rounds.len()
        invariant
            i <= rounds.len(),
            rounds@.len() == last,
            paid(model, last) <= u64::MAX,
            forall|j: int| 0 <= j < rounds@.len() ==> #[trigger] rounds@[j] == coins_at(
                model,
                (j + 1) as nat,
            ),
            loop_total == paid(model, i as nat),
        decreases rounds.len() - i,
    {
        proof {
            lemma_paid_grows(model, (i + 1) as nat, last);
        }
        loop_total += rounds[i];
        i += 1;
    }

    let (loops, rem) = div_rem(pulls, seen.len() as u64);

    let mut rest: u64 = 0;
    let mut i: usize = 0;
    while i < rem as usize
        invariant
            i <= rem,
            rem < rounds@.len(),
            rounds@.len() == last,
            paid(model, last) <= u64::MAX,
            forall|j: int| 0 <= j < rounds@.len() ==> #[trigger] rounds@[j] == coins_at(
                model,
                (j + 1) as nat,
            ),
            rest == paid(model, i as nat),
        decreases rem - i,
    {
        proof {
            lemma_paid_grows(model, (i + 1) as nat, last);
        }
        rest += rounds[i];
        i += 1;
    }
    proof {
        assert(payout(model, pulls as nat, last) == loops * loop_total + rest);
        assert(loops * loop_total >= 0) by (nonlinear_arith)
            requires
                loops >= 0,
                loop_total >= 0,
        ;
    }
    (loops * loop_total) + rest
}

/// The face that wheel `w` shows after `pulls` pulls and `nudges` nudges
/// of the left lever, each of which turns every wheel on by one face, or
/// back where it is negative.
pub open spec fn nudged_by(wheels: Seq<Turning>, w: int, pulls: nat, nudges: int) -> Seq<char> {
    wheels[w].1[(pulls * wheels[w].0 + nudges) % (wheels[w].1.len() as int)]
}

/// What the machine shows after `pulls` pulls and `nudges` nudges.
pub open spec fn nudged_display(wheels: Seq<Turning>, pulls: nat, nudges: int) -> Seq<char> {
    joined(Seq::new(wheels.len(), |w: int| nudged_by(wheels, w, pulls, nudges)), seq![' '])
}

/// The coins that the machine pays after `pulls` pulls and `nudges`
/// nudges; before the first pull it pays nothing.
pub open spec fn coins_nudged(wheels: Seq<Turning>, pulls: nat, nudges: int) -> nat {
    if pulls == 0 {
        0
    } else {
        coins(encode_utf8(nudged_display(wheels, pulls, nudges)))
    }
}

/// The greater of two numbers.
pub open spec fn greater(a: nat, b: nat) -> nat {
    if a >= b {
        a
    } else {
        b
    }
}

/// The lesser of two numbers.
pub open spec fn lesser(a: nat, b: nat) -> nat {
    if a <= b {
        a
    } else {
        b
    }
}

/// The most that the machine can pay from now on, and all the pulls that
/// are `remaining`, where before each pull the left lever is nudged back,
/// on, or not at all.
pub open spec fn most(wheels: Seq<Turning>, nudges: int, pulls: nat, remaining: nat) -> nat
    decreases remaining,
{
    coins_nudged(wheels, pulls, nudges) + if remaining == 0 {
        0nat
    } else {
        greater(
            greater(
                most(wheels, nudges - 1, pulls + 1, (remaining - 1) as nat),
                most(wheels, nudges, pulls + 1, (remaining - 1) as nat),
            ),
            most(wheels, nudges + 1, pulls + 1, (remaining - 1) as nat),
        )
    }
}

/// The least that the machine can pay from now on, and all the pulls that
/// are `remaining`.
pub open spec fn least(wheels: Seq<Turning>, nudges: int, pulls: nat, remaining: nat) -> nat
    decreases remaining,
{
    coins_nudged(wheels, pulls, nudges) + if remaining == 0 {
        0nat
    } else {
        lesser(
            lesser(
                least(wheels, nudges - 1, pulls + 1, (remaining - 1) as nat),
                least(wheels, nudges, pulls + 1, (remaining - 1) as nat),
            ),
            least(wheels, nudges + 1, pulls + 1, (remaining - 1) as nat),
        )
    }
}

/// Every wheel turns at each pull, by no more than can be counted over
/// 256 pulls, and has no more faces than an `i64` can count.
pub open spec fn wheels_turn(wheels: Seq<Turning>) -> bool {
    forall|w: int|
        0 <= w < wheels.len() ==> 1 <= (#[trigger] wheels[w]).0 && 256 * wheels[w].0 + 256
            <= i64::MAX && wheels[w].1.len() <= i64::MAX
}

/// No more coins are paid from any state on than a `u64` holds.
pub open spec fn most_fits(wheels: Seq<Turning>) -> bool {
    forall|nudges: int, pulls: nat|
        pulls <= 256 ==> #[trigger] most(wheels, nudges, pulls, (256 - pulls) as nat) <= u64::MAX
}

/// The least is no more than the most.
pub proof fn lemma_least_most(wheels: Seq<Turning>, nudges: int, pulls: nat, remaining: nat)
    ensures
        least(wheels, nudges, pulls, remaining) <= most(wheels, nudges, pulls, remaining),
    decreases remaining,
{
    if remaining > 0 {
        lemma_least_most(wheels, nudges - 1, pulls + 1, (remaining - 1) as nat);
        lemma_least_most(wheels, nudges, pulls + 1, (remaining - 1) as nat);
        lemma_least_most(wheels, nudges + 1, pulls + 1, (remaining - 1) as nat);
    }
}

/// Every answer that `cache` holds is right.
pub open spec fn remembers(cache: Map<u64, (u64, u64)>, wheels: Seq<Turning>) -> bool {
    forall|k: u64| #[trigger]
        cache.contains_key(k) ==> {
            let nudges = k / 512 - 256;
            let pulls = (k % 512) as nat;
            &&& pulls <= 256
            &&& cache[k].0 == most(wheels, nudges, pulls, (256 - pulls) as nat)
            &&& cache[k].1 == least(wheels, nudges, pulls, (256 - pulls) as nat)
        }
}

/// What the machine shows after `pulls` pulls and `nudges` nudges.
fn show_nudged(wheels: &Vec<Wheel>, pulls: usize, nudges: i64) -> (r: String)
    requires
        all_faced(turning(wheels@)),
        wheels_turn(turning(wheels@)),
        pulls <= 256,
        -(pulls as int) <= nudges <= pulls,
    ensures
        r@ == nudged_display(turning(wheels@), pulls as nat, nudges as int),
{
    let ghost model = turning(wheels@);
    let mut parts: Vec<&str> = Vec::new();
    let mut w: usize = 0;
    while w < wheels.len()
        invariant
            w <= wheels.len(),
            model == turning(wheels@),
            all_faced(model),
            wheels_turn(model),
            pulls <= 256,
            -(pulls as int) <= nudges <= pulls,
            parts@.len() == w,
            forall|k: int|
                0 <= k < w ==> (#[trigger] parts@[k])@ == nudged_by(
                    model,
                    k,
                    pulls as nat,
                    nudges as int,
                ),
        decreases wheels.len() - w,
    {
        let wheel = &wheels[w];
        proof {
            assert(model[w as int].1.len() > 0);
            assert(1 <= model[w as int].0 && 256 * model[w as int].0 + 256 <= i64::MAX);
            assert(model[w as int].1.len() == wheel.faces@.len());
            assert(pulls <= pulls * wheel.moves <= 256 * wheel.moves) by (nonlinear_arith)
                requires
                    0 <= pulls <= 256,
                    1 <= wheel.moves,
            ;
        }
        let turned: u64 = ((pulls as i64) * (wheel.moves as i64) + nudges) as u64;
        let at = (turned % (wheel.faces.len() as u64)) as usize;
        parts.push(wheel.faces[at].as_str());
        w += 1;
    }
    proof {
        reveal_strlit(" ");
        assert(" "@ =~= seq![' ']);
        assert(texts_view(parts@) =~= Seq::new(
            model.len(),
            |w: int| nudged_by(model, w, pulls as nat, nudges as int),
        ));
    }
    join_texts(&parts, " ")
}

/// The most and the least that the machine can pay from now on.
fn solve(
    nudges: i64,
    pulls: usize,
    remaining: usize,
    cache: &mut HashMap<u64, (u64, u64)>,
    wheels: &Vec<Wheel>,
) -> (r: (u64, u64))
    requires
        all_faced(turning(wheels@)),
        wheels_turn(turning(wheels@)),
        most_fits(turning(wheels@)),
        pulls + remaining == 256,
        -(pulls as int) <= nudges <= pulls,
        remembers(old(cache)@, turning(wheels@)),
    ensures
        r.0 == most(turning(wheels@), nudges as int, pulls as nat, remaining as nat),
        r.1 == least(turning(wheels@), nudges as int, pulls as nat, remaining as nat),
        remembers(final(cache)@, turning(wheels@)),
    decreases remaining,
{
    let ghost model = turning(wheels@);
    let key: u64 = ((nudges + 256) as u64) * 512 + pulls as u64;
    if let Some(res) = cache.get(&key) {
        return *res;
    }
    proof {
        assert(most(model, nudges as int, pulls as nat, (256 - pulls) as nat) <= u64::MAX);
        lemma_least_most(model, nudges as int, pulls as nat, remaining as nat);
    }
    let score: u64 = if pulls == 0 {
        0
    } else {
        let faces = show_nudged(wheels, pulls, nudges);
        let mut counts: HashMap<u8, u64> = HashMap::new();
        score(faces.as_str(), &mut counts)
    };

    let result = if remaining > 0 {
        let (max_back, min_back) = solve(nudges - 1, pulls + 1, remaining - 1, cache, wheels);
        let (max_same, min_same) = solve(nudges, pulls + 1, remaining - 1, cache, wheels);
        let (max_on, min_on) = solve(nudges + 1, pulls + 1, remaining - 1, cache, wheels);
        let mut max_max: u64 = 0;
        let mut min_min: u64 = u64::MAX;
        if max_back > max_max {
            max_max = max_back;
        }
        if max_same > max_max {
            max_max = max_same;
        }
        if max_on > max_max {
            max_max = max_on;
        }
        if min_back < min_min {
            min_min = min_back;
        }
        if min_same < min_min {
            min_min = min_same;
        }
        if min_on < min_min {
            min_min = min_on;
        }
        proof {
            lemma_least_most(model, nudges - 1, (pulls + 1) as nat, (remaining - 1) as nat);
            lemma_least_most(model, nudges as int, (pulls + 1) as nat, (remaining - 1) as nat);
            lemma_least_most(model, nudges + 1, (pulls + 1) as nat, (remaining - 1) as nat);
        }
        (score + max_max, score + min_min)
    } else {
        (score, score)
    };

    cache.insert(key, result);
    result
}

/// The most and the least that the machine drawn in `input` can pay over
/// 256 pulls, where before each pull the left lever is nudged back, on, or
/// not at all; both in base ten with a blank between them.
pub fn part3(input: &str) -> (r: String)
    requires
        is_plain(input@),
        machine_drawn(lines(input@)),
        all_faced(machine_of(lines(input@))),
        wheels_turn(machine_of(lines(input@))),
        most_fits(machine_of(lines(input@))),
    ensures
        r@ == digits_of(most(machine_of(lines(input@)), 0, 0, 256)) + seq![' '] + digits_of(
            least(machine_of(lines(input@)), 0, 0, 256),
        ),
{
    let wheels = parse(input);
    let mut cache: HashMap<u64, (u64, u64)> = HashMap::new();
    let (max, min) = solve(0, 0, 256, &mut cache, &wheels);
    let mut text = decimal(max);
    let least_text = decimal(min);
    text.push(' ');
    let mut i: usize = 0;
    let ghost head = text@;
    while i < least_text.len()
        invariant
            i <= least_text.len(),
            text@ == head + least_text@.take(i as int),
        decreases least_text.len() - i,
    {
        text.push(least_text[i]);
        proof {
            assert(least_text@.take(i + 1) =~= least_text@.take(i as int).push(least_text@[i as int]));
            assert(head + least_text@.take(i as int).push(least_text@[i as int]) =~= (head
                + least_text@.take(i as int)).push(least_text@[i as int]));
        }
        i += 1;
    }
    proof {
        assert(least_text@.take(i as int) =~= least_text@);
        assert(head =~= digits_of(max as nat) + seq![' ']);
    }
    text_of(text.as_slice())
}

} // verus!
