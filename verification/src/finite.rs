//! Which decimal literals denote a finite number of double precision.
//!
//! A literal is rounded to the closest double. It rounds to infinity when it
//! lies at or beyond the middle between the largest double and the next power
//! of two; this module decides that on the decimal digits alone.

use vstd::prelude::*;
use vstd::slice::slice_subrange;

use crate::number;
use crate::number::digit;
use crate::record;
use crate::record::find_mark;
use crate::text;
use crate::text::find_char;

verus! {

/// Powers of ten.
pub open spec fn ten(k: nat) -> int
    decreases k,
{
    if k == 0 {
        1
    } else {
        10 * ten((k - 1) as nat)
    }
}

/// The least number that rounds to infinity in double precision: the middle
/// between the largest double and the next power of two.
pub open spec fn overflow() -> int {
    vstd::arithmetic::power2::pow2(1024) - vstd::arithmetic::power2::pow2(970)
}

/// The number that a run of decimal digits denotes.
pub open spec fn value(digits: Seq<char>) -> int {
    number::digits_value(digits, 10)->0
}

/// What stands before the exponent of a literal, without its sign.
pub open spec fn mantissa(s: Seq<char>) -> Seq<char> {
    let number = record::unsigned_part(s);
    match text::first_where(number, record::exponent_mark()) {
        Some(i) => number.take(i),
        None => number,
    }
}

/// The exponent of a literal.
pub open spec fn exponent(s: Seq<char>) -> int {
    let number = record::unsigned_part(s);
    match text::first_where(number, record::exponent_mark()) {
        Some(i) => {
            let e = number.skip(i + 1);
            if e[0] == '-' {
                -value(e.skip(1))
            } else if e[0] == '+' {
                value(e.skip(1))
            } else {
                value(e)
            }
        },
        None => 0,
    }
}

/// The digits of a literal before the point.
pub open spec fn whole(s: Seq<char>) -> Seq<char> {
    match text::index_of(mantissa(s), '.') {
        Some(i) => mantissa(s).take(i),
        None => mantissa(s),
    }
}

/// The digits of a literal behind the point.
pub open spec fn fraction(s: Seq<char>) -> Seq<char> {
    match text::index_of(mantissa(s), '.') {
        Some(i) => mantissa(s).skip(i + 1),
        None => seq![],
    }
}

/// `digits` times ten to the power of `scale` is `bound` or more.
pub open spec fn reaches(digits: int, scale: int, bound: int) -> bool {
    if scale >= 0 {
        digits * ten(scale as nat) >= bound
    } else {
        digits >= bound * ten((-scale) as nat)
    }
}

/// The literal denotes a number that does not round to infinity.
pub open spec fn is_finite(s: Seq<char>) -> bool {
    !reaches(
        value(whole(s) + fraction(s)),
        exponent(s) - fraction(s).len(),
        overflow(),
    )
}

/// Number of pieces into which the 309 digits of [`overflow`] are cut: the
/// first of three digits, the others of eighteen.
const LIMBS: usize = 18;

/// The pieces, each as a number.
pub open spec fn limb(i: int) -> int {
    if i == 0 {
        179
    } else if i == 1 {
        769313486231580793
    } else if i == 2 {
        728971405303415079
    } else if i == 3 {
        934132710037826936
    } else if i == 4 {
        173778980444968292
    } else if i == 5 {
        764750946649017977
    } else if i == 6 {
        587207096330286416
    } else if i == 7 {
        692887910946555547
    } else if i == 8 {
        851940402630657488
    } else if i == 9 {
        671505820681908902
    } else if i == 10 {
        708383676273854
    } else if i == 11 {
        845817711531764475
    } else if i == 12 {
        730270069855571366
    } else if i == 13 {
        959622842914819860
    } else if i == 14 {
        834936475292719074
    } else if i == 15 {
        168444365510704342
    } else if i == 16 {
        711559699508093042
    } else {
        880177904174497792
    }
}

/// Where a piece begins.
pub open spec fn limb_start(i: int) -> int {
    if i <= 0 {
        0
    } else {
        3 + 18 * (i - 1)
    }
}

/// The first pieces as one number.
pub open spec fn limit_prefix(i: int) -> int
    decreases i,
{
    if i <= 0 {
        0
    } else {
        limit_prefix(i - 1) * 1000000000000000000 + limb(i - 1)
    }
}

/// The pieces make up the bound.
proof fn lemma_limit()
    ensures
        limit_prefix(18) == overflow(),
        overflow() == 179769313486231580793728971405303415079934132710037826936173778980444968292764750946649017977587207096330286416692887910946555547851940402630657488671505820681908902000708383676273854845817711531764475730270069855571366959622842914819860834936475292719074168444365510704342711559699508093042880177904174497792int,
{
    assert(limit_prefix(0) == 0);
    assert(limit_prefix(1) == 179);
    assert(limit_prefix(2) == 179769313486231580793int);
    assert(limit_prefix(3) == 179769313486231580793728971405303415079int);
    assert(limit_prefix(4) == 179769313486231580793728971405303415079934132710037826936int);
    assert(limit_prefix(5) == 179769313486231580793728971405303415079934132710037826936173778980444968292int);
    assert(limit_prefix(6) == 179769313486231580793728971405303415079934132710037826936173778980444968292764750946649017977int);
    assert(limit_prefix(7) == 179769313486231580793728971405303415079934132710037826936173778980444968292764750946649017977587207096330286416int);
    assert(limit_prefix(8) == 179769313486231580793728971405303415079934132710037826936173778980444968292764750946649017977587207096330286416692887910946555547int);
    assert(limit_prefix(9) == 179769313486231580793728971405303415079934132710037826936173778980444968292764750946649017977587207096330286416692887910946555547851940402630657488int);
    assert(limit_prefix(10) == 179769313486231580793728971405303415079934132710037826936173778980444968292764750946649017977587207096330286416692887910946555547851940402630657488671505820681908902int);
    assert(limit_prefix(11) == 179769313486231580793728971405303415079934132710037826936173778980444968292764750946649017977587207096330286416692887910946555547851940402630657488671505820681908902000708383676273854int);
    assert(limit_prefix(12) == 179769313486231580793728971405303415079934132710037826936173778980444968292764750946649017977587207096330286416692887910946555547851940402630657488671505820681908902000708383676273854845817711531764475int);
    assert(limit_prefix(13) == 179769313486231580793728971405303415079934132710037826936173778980444968292764750946649017977587207096330286416692887910946555547851940402630657488671505820681908902000708383676273854845817711531764475730270069855571366int);
    assert(limit_prefix(14) == 179769313486231580793728971405303415079934132710037826936173778980444968292764750946649017977587207096330286416692887910946555547851940402630657488671505820681908902000708383676273854845817711531764475730270069855571366959622842914819860int);
    assert(limit_prefix(15) == 179769313486231580793728971405303415079934132710037826936173778980444968292764750946649017977587207096330286416692887910946555547851940402630657488671505820681908902000708383676273854845817711531764475730270069855571366959622842914819860834936475292719074int);
    assert(limit_prefix(16) == 179769313486231580793728971405303415079934132710037826936173778980444968292764750946649017977587207096330286416692887910946555547851940402630657488671505820681908902000708383676273854845817711531764475730270069855571366959622842914819860834936475292719074168444365510704342int);
    assert(limit_prefix(17) == 179769313486231580793728971405303415079934132710037826936173778980444968292764750946649017977587207096330286416692887910946555547851940402630657488671505820681908902000708383676273854845817711531764475730270069855571366959622842914819860834936475292719074168444365510704342711559699508093042int);
    assert(limit_prefix(18) == 179769313486231580793728971405303415079934132710037826936173778980444968292764750946649017977587207096330286416692887910946555547851940402630657488671505820681908902000708383676273854845817711531764475730270069855571366959622842914819860834936475292719074168444365510704342711559699508093042880177904174497792int);
    vstd::arithmetic::power2::lemma2_to64();
    vstd::arithmetic::power2::lemma_pow2_adds(64, 64);
    lemma_product(
        vstd::arithmetic::power2::pow2(64) as int,
        vstd::arithmetic::power2::pow2(64) as int,
        18446744073709551616int,
        18446744073709551616int,
    );
    assert(vstd::arithmetic::power2::pow2(128) == 340282366920938463463374607431768211456int);
    vstd::arithmetic::power2::lemma_pow2_adds(128, 128);
    lemma_product(
        vstd::arithmetic::power2::pow2(128) as int,
        vstd::arithmetic::power2::pow2(128) as int,
        340282366920938463463374607431768211456int,
        340282366920938463463374607431768211456int,
    );
    assert(vstd::arithmetic::power2::pow2(256) == 115792089237316195423570985008687907853269984665640564039457584007913129639936int);
    vstd::arithmetic::power2::lemma_pow2_adds(256, 256);
    lemma_product(
        vstd::arithmetic::power2::pow2(256) as int,
        vstd::arithmetic::power2::pow2(256) as int,
        115792089237316195423570985008687907853269984665640564039457584007913129639936int,
        115792089237316195423570985008687907853269984665640564039457584007913129639936int,
    );
    assert(vstd::arithmetic::power2::pow2(512) == 13407807929942597099574024998205846127479365820592393377723561443721764030073546976801874298166903427690031858186486050853753882811946569946433649006084096int);
    vstd::arithmetic::power2::lemma_pow2_adds(512, 512);
    lemma_product(
        vstd::arithmetic::power2::pow2(512) as int,
        vstd::arithmetic::power2::pow2(512) as int,
        13407807929942597099574024998205846127479365820592393377723561443721764030073546976801874298166903427690031858186486050853753882811946569946433649006084096int,
        13407807929942597099574024998205846127479365820592393377723561443721764030073546976801874298166903427690031858186486050853753882811946569946433649006084096int,
    );
    assert(vstd::arithmetic::power2::pow2(1024) == 179769313486231590772930519078902473361797697894230657273430081157732675805500963132708477322407536021120113879871393357658789768814416622492847430639474124377767893424865485276302219601246094119453082952085005768838150682342462881473913110540827237163350510684586298239947245938479716304835356329624224137216int);
    vstd::arithmetic::power2::lemma_pow2_adds(512, 256);
    lemma_product(
        vstd::arithmetic::power2::pow2(512) as int,
        vstd::arithmetic::power2::pow2(256) as int,
        13407807929942597099574024998205846127479365820592393377723561443721764030073546976801874298166903427690031858186486050853753882811946569946433649006084096int,
        115792089237316195423570985008687907853269984665640564039457584007913129639936int,
    );
    assert(vstd::arithmetic::power2::pow2(768) == 1552518092300708935148979488462502555256886017116696611139052038026050952686376886330878408828646477950487730697131073206171580044114814391444287275041181139204454976020849905550265285631598444825262999193716468750892846853816057856int);
    vstd::arithmetic::power2::lemma_pow2_adds(768, 128);
    lemma_product(
        vstd::arithmetic::power2::pow2(768) as int,
        vstd::arithmetic::power2::pow2(128) as int,
        1552518092300708935148979488462502555256886017116696611139052038026050952686376886330878408828646477950487730697131073206171580044114814391444287275041181139204454976020849905550265285631598444825262999193716468750892846853816057856int,
        340282366920938463463374607431768211456int,
    );
    assert(vstd::arithmetic::power2::pow2(896) == 528294531135665246352339784916516606518847326036121522127960709026673902556724859474417255887657187894674394993257128678882347559502685537250538978462939576908386683999005084168731517676426441053024232908211188404148028292751561738838396898767036476489538580897737998336int);
    vstd::arithmetic::power2::lemma_pow2_adds(896, 64);
    lemma_product(
        vstd::arithmetic::power2::pow2(896) as int,
        vstd::arithmetic::power2::pow2(64) as int,
        528294531135665246352339784916516606518847326036121522127960709026673902556724859474417255887657187894674394993257128678882347559502685537250538978462939576908386683999005084168731517676426441053024232908211188404148028292751561738838396898767036476489538580897737998336int,
        18446744073709551616int,
    );
    assert(vstd::arithmetic::power2::pow2(960) == 9745314011399999080353382387875188310876226857595007526867906457212948690766426102465615065882010259225304916231408668183459169865203094046577987296312653419531277699956473029870789655490053648352799593479218378873685597925394874945746363615468965612827738803104277547081828589991914110976int);
    vstd::arithmetic::power2::lemma_pow2_adds(960, 8);
    lemma_product(
        vstd::arithmetic::power2::pow2(960) as int,
        vstd::arithmetic::power2::pow2(8) as int,
        9745314011399999080353382387875188310876226857595007526867906457212948690766426102465615065882010259225304916231408668183459169865203094046577987296312653419531277699956473029870789655490053648352799593479218378873685597925394874945746363615468965612827738803104277547081828589991914110976int,
        256,
    );
    assert(vstd::arithmetic::power2::pow2(968) == 2494800386918399764570465891296048207584314075544321926878184053046514864836205082231197456865794626361678058555240619054965547485491992075923964747856039275400007091188857095646922151805453733978316695930679904991663513068901087986111069085560055196883901133594695052052948119037930012409856int);
    vstd::arithmetic::power2::lemma_pow2_adds(968, 2);
    lemma_product(
        vstd::arithmetic::power2::pow2(968) as int,
        vstd::arithmetic::power2::pow2(2) as int,
        2494800386918399764570465891296048207584314075544321926878184053046514864836205082231197456865794626361678058555240619054965547485491992075923964747856039275400007091188857095646922151805453733978316695930679904991663513068901087986111069085560055196883901133594695052052948119037930012409856int,
        4,
    );
    assert(vstd::arithmetic::power2::pow2(970) == 9979201547673599058281863565184192830337256302177287707512736212186059459344820328924789827463178505446712234220962476219862189941967968303695858991424157101600028364755428382587688607221814935913266783722719619966654052275604351944444276342240220787535604534378780208211792476151720049639424int);
}

/// Equal factors have equal products.
proof fn lemma_product(x: int, y: int, a: int, b: int)
    requires
        x == a,
        y == b,
    ensures
        x * y == a * b,
{
}

/// Powers of ten multiply by adding exponents.
proof fn lemma_ten_adds(a: nat, b: nat)
    ensures
        ten(a + b) == ten(a) * ten(b),
        ten(a) >= 1,
    decreases a,
{
    if a > 0 {
        lemma_ten_adds((a - 1) as nat, b);
        let x = ten((a - 1) as nat);
        let y = ten(b);
        assert(10 * (x * y) == (10 * x) * y) by (nonlinear_arith);
        assert((a + b - 1) as nat == (a - 1) as nat + b);
    } else {
        assert(1 * ten(b) == ten(b));
    }
}

/// Powers of ten grow.
proof fn lemma_ten_grows(a: nat, b: nat)
    requires
        a <= b,
    ensures
        1 <= ten(a) <= ten(b),
    decreases b,
{
    lemma_ten_adds(a, 0);
    if a < b {
        lemma_ten_grows(a, (b - 1) as nat);
    }
}

/// Bounds on what a run of digits is worth.
proof fn lemma_value(s: Seq<char>)
    requires
        text::all_digits(s),
    ensures
        number::digits_value(s, 10) is Some,
        0 <= value(s) < ten(s.len()),
        s.len() > 0 && s[0] != '0' ==> ten((s.len() - 1) as nat) <= value(s),
    decreases s.len(),
{
    if s.len() > 0 {
        let init = s.drop_last();
        assert('0' <= s[s.len() - 1] <= '9');
        lemma_all_digits_part(s, 0, s.len() - 1);
        assert(init =~= s.subrange(0, s.len() - 1));
        lemma_value(init);
        if init.len() > 0 {
            assert(init[0] == s[0]);
        } else {
            assert(s.last() == s[0]);
        }
    }
}

proof fn lemma_all_digits_part(s: Seq<char>, a: int, b: int)
    requires
        text::all_digits(s),
        0 <= a <= b <= s.len(),
    ensures
        text::all_digits(s.subrange(a, b)),
{
    assert forall|i: int| 0 <= i < b - a implies '0' <= #[trigger] s.subrange(a, b)[i] <= '9' by {
        assert(s.subrange(a, b)[i] == s[a + i]);
    }
}

/// Digits behind others shift them.
proof fn lemma_value_concat(a: Seq<char>, b: Seq<char>)
    requires
        text::all_digits(a),
        text::all_digits(b),
    ensures
        text::all_digits(a + b),
        value(a + b) == value(a) * ten(b.len()) + value(b),
    decreases b.len(),
{
    assert forall|i: int| 0 <= i < (a + b).len() implies '0' <= #[trigger] (a + b)[i] <= '9' by {
        if i < a.len() {
            assert((a + b)[i] == a[i]);
        } else {
            assert((a + b)[i] == b[i - a.len()]);
        }
    }
    lemma_value(a);
    lemma_value(b);
    lemma_value(a + b);
    if b.len() == 0 {
        assert(a + b =~= a);
    } else {
        let init = b.drop_last();
        assert('0' <= b[b.len() - 1] <= '9');
        lemma_all_digits_part(b, 0, b.len() - 1);
        assert(init =~= b.subrange(0, b.len() - 1));
        lemma_value_concat(a, init);
        lemma_value(init);
        lemma_value(a + init);
        assert((a + b).drop_last() =~= a + init);
        let v = value(a);
        let t = ten(init.len());
        assert(v * (10 * t) == (v * t) * 10) by (nonlinear_arith);
    }
}

/// Zeros in front add nothing.
proof fn lemma_leading_zeros(s: Seq<char>, z: int)
    requires
        text::all_digits(s),
        0 <= z <= s.len(),
        forall|i: int| 0 <= i < z ==> #[trigger] s[i] == '0',
    ensures
        value(s) == value(s.skip(z)),
        text::all_digits(s.skip(z)),
    decreases z,
{
    if z == 0 {
        assert(s.skip(0) =~= s);
    } else {
        let rest = s.skip(z);
        let front = s.take(z);
        lemma_all_digits_part(s, 0, z);
        lemma_all_digits_part(s, z, s.len() as int);
        assert(front =~= s.subrange(0, z));
        assert(rest =~= s.subrange(z, s.len() as int));
        lemma_zeros(front);
        lemma_value_concat(front, rest);
        assert(front + rest =~= s);
        assert(0 * ten(rest.len()) == 0) by (nonlinear_arith);
    }
}

/// Zeros are worth nothing.
proof fn lemma_zeros(s: Seq<char>)
    requires
        forall|i: int| 0 <= i < s.len() ==> #[trigger] s[i] == '0',
    ensures
        text::all_digits(s),
        value(s) == 0,
    decreases s.len(),
{
    if s.len() > 0 {
        assert(s[s.len() - 1] == '0');
        lemma_zeros(s.drop_last());
        lemma_value(s.drop_last());
    }
}

/// How the bound compares with powers of ten.
proof fn lemma_overflow_width()
    ensures
        ten(308) <= overflow() < ten(309),
        1 <= overflow(),
{
    lemma_limit();
    reveal_with_fuel(ten, 20);
    assert(ten(18) == 1000000000000000000);
    lemma_ten_adds(18, 18);
    lemma_product(ten(18), ten(18), 1000000000000000000int, 1000000000000000000int);
    assert(ten(36) == 1000000000000000000000000000000000000int);
    lemma_ten_adds(36, 36);
    lemma_product(ten(36), ten(36), 1000000000000000000000000000000000000int, 1000000000000000000000000000000000000int);
    assert(ten(72) == 1000000000000000000000000000000000000000000000000000000000000000000000000int);
    lemma_ten_adds(72, 72);
    lemma_product(ten(72), ten(72), 1000000000000000000000000000000000000000000000000000000000000000000000000int, 1000000000000000000000000000000000000000000000000000000000000000000000000int);
    assert(ten(144) == 1000000000000000000000000000000000000000000000000000000000000000000000000000000000000000000000000000000000000000000000000000000000000000000000000int);
    lemma_ten_adds(144, 144);
    lemma_product(ten(144), ten(144), 1000000000000000000000000000000000000000000000000000000000000000000000000000000000000000000000000000000000000000000000000000000000000000000000000int, 1000000000000000000000000000000000000000000000000000000000000000000000000000000000000000000000000000000000000000000000000000000000000000000000000int);
    assert(ten(288) == 1000000000000000000000000000000000000000000000000000000000000000000000000000000000000000000000000000000000000000000000000000000000000000000000000000000000000000000000000000000000000000000000000000000000000000000000000000000000000000000000000000000000000000000000000000000000000000000000000int);
    lemma_ten_adds(288, 18);
    lemma_product(ten(288), ten(18), 1000000000000000000000000000000000000000000000000000000000000000000000000000000000000000000000000000000000000000000000000000000000000000000000000000000000000000000000000000000000000000000000000000000000000000000000000000000000000000000000000000000000000000000000000000000000000000000000000int, 1000000000000000000int);
    assert(ten(306) == 1000000000000000000000000000000000000000000000000000000000000000000000000000000000000000000000000000000000000000000000000000000000000000000000000000000000000000000000000000000000000000000000000000000000000000000000000000000000000000000000000000000000000000000000000000000000000000000000000000000000000000000int);
    lemma_ten_adds(306, 2);
    lemma_product(ten(306), ten(2), 1000000000000000000000000000000000000000000000000000000000000000000000000000000000000000000000000000000000000000000000000000000000000000000000000000000000000000000000000000000000000000000000000000000000000000000000000000000000000000000000000000000000000000000000000000000000000000000000000000000000000000000int, 100int);
    assert(ten(308) == 100000000000000000000000000000000000000000000000000000000000000000000000000000000000000000000000000000000000000000000000000000000000000000000000000000000000000000000000000000000000000000000000000000000000000000000000000000000000000000000000000000000000000000000000000000000000000000000000000000000000000000000int);
    lemma_ten_adds(308, 1);
    lemma_product(ten(308), ten(1), 100000000000000000000000000000000000000000000000000000000000000000000000000000000000000000000000000000000000000000000000000000000000000000000000000000000000000000000000000000000000000000000000000000000000000000000000000000000000000000000000000000000000000000000000000000000000000000000000000000000000000000000int, 10int);
    assert(ten(309) == 1000000000000000000000000000000000000000000000000000000000000000000000000000000000000000000000000000000000000000000000000000000000000000000000000000000000000000000000000000000000000000000000000000000000000000000000000000000000000000000000000000000000000000000000000000000000000000000000000000000000000000000000int);
}

/// A number with fewer digits before the point than the bound lies below it,
/// one with more lies beyond it.
proof fn lemma_width_decides(d: Seq<char>, scale: int)
    requires
        text::all_digits(d),
        d.len() > 0,
        d[0] != '0',
    ensures
        d.len() + scale < 309 ==> !reaches(value(d), scale, overflow()),
        d.len() + scale > 309 ==> reaches(value(d), scale, overflow()),
{
    let n = d.len();
    let m = n + scale;
    let v = value(d);
    let t = overflow();
    lemma_value(d);
    lemma_overflow_width();
    if scale >= 0 {
        let k = scale as nat;
        lemma_ten_adds(k, 0);
        if m < 309 {
            lemma_ten_adds(n, k);
            lemma_ten_grows((n + k) as nat, 308);
            lemma_less(v, ten(n), ten(k));
        }
        if m > 309 {
            lemma_ten_adds((n - 1) as nat, k);
            lemma_ten_grows(309, ((n - 1) + k) as nat);
            lemma_no_less(ten((n - 1) as nat), v, ten(k));
        }
    } else {
        let k = (-scale) as nat;
        lemma_ten_adds(k, 0);
        if m < 309 {
            if m >= 0 {
                lemma_ten_adds(m as nat, k);
                assert(m as nat + k == n);
                lemma_ten_grows(m as nat, 308);
                lemma_no_less(ten(m as nat), t, ten(k));
            } else {
                lemma_ten_grows(n, k);
                lemma_no_less(1, t, ten(k));
            }
        }
        if m > 309 {
            lemma_ten_adds((m - 1) as nat, k);
            assert((m - 1) as nat + k == (n - 1) as nat);
            lemma_ten_grows(309, (m - 1) as nat);
            lemma_no_less(t, ten((m - 1) as nat), ten(k));
        }
    }
}

proof fn lemma_less(a: int, b: int, c: int)
    requires
        a < b,
        c >= 1,
    ensures
        a * c < b * c,
{
    assert(a * c < b * c) by (nonlinear_arith)
        requires
            a < b,
            c >= 1,
    ;
}

proof fn lemma_no_less(a: int, b: int, c: int)
    requires
        a <= b,
        c >= 1,
    ensures
        a * c <= b * c,
{
    assert(a * c <= b * c) by (nonlinear_arith)
        requires
            a <= b,
            c >= 1,
    ;
}

/// As many digits as the bound has: the first of `d`, or `d` with zeros.
pub open spec fn padded(d: Seq<char>) -> Seq<char> {
    Seq::new(
        309,
        |i: int|
            if i < d.len() {
                d[i]
            } else {
                '0'
            },
    )
}

proof fn lemma_padded(d: Seq<char>)
    requires
        text::all_digits(d),
    ensures
        text::all_digits(padded(d)),
{
    assert forall|i: int| 0 <= i < 309 implies '0' <= #[trigger] padded(d)[i] <= '9' by {
        if i < d.len() {
            assert('0' <= d[i] <= '9');
        }
    }
}

/// A number with as many digits before the point as the bound has compares
/// with it as those digits do.
proof fn lemma_digits_decide(d: Seq<char>, scale: int)
    requires
        text::all_digits(d),
        d.len() + scale == 309,
    ensures
        reaches(value(d), scale, overflow()) <==> value(padded(d)) >= overflow(),
{
    let p = padded(d);
    let t = overflow();
    lemma_padded(d);
    if scale >= 0 {
        let zeros = Seq::new(scale as nat, |i: int| '0');
        lemma_zeros(zeros);
        lemma_value_concat(d, zeros);
        assert(d + zeros =~= p);
    } else {
        let k = (-scale) as nat;
        let front = d.take(309);
        let rest = d.skip(309);
        lemma_all_digits_part(d, 0, 309);
        lemma_all_digits_part(d, 309, d.len() as int);
        assert(front =~= d.subrange(0, 309));
        assert(rest =~= d.subrange(309, d.len() as int));
        assert(front =~= p);
        assert(front + rest =~= d);
        lemma_value_concat(front, rest);
        lemma_value(rest);
        lemma_ten_adds(k, 0);
        let v = value(p);
        if v >= t {
            lemma_no_less(t, v, ten(k));
        } else {
            lemma_no_less(v, t - 1, ten(k));
            assert((t - 1) * ten(k) == t * ten(k) - ten(k)) by (nonlinear_arith);
        }
    }
}

/// The first pieces leave the rest of the bound open by one.
proof fn lemma_limit_prefix(i: int)
    requires
        0 <= i <= 18,
    ensures
        limit_prefix(i) * ten((309 - limb_start(i)) as nat) <= overflow(),
        overflow() < (limit_prefix(i) + 1) * ten((309 - limb_start(i)) as nat),
    decreases 18 - i,
{
    if i == 18 {
        lemma_limit();
        lemma_product(limit_prefix(18), ten(0), overflow(), 1);
        lemma_product(limit_prefix(18) + 1, ten(0), overflow() + 1, 1);
    } else if i == 0 {
        lemma_overflow_width();
        lemma_product(limit_prefix(0), ten(309), 0, ten(309));
        lemma_product(limit_prefix(0) + 1, ten(309), 1, ten(309));
    } else {
        lemma_limit_prefix(i + 1);
        let left = (309 - limb_start(i + 1)) as nat;
        let t = ten(left);
        let h = limit_prefix(i);
        let l = limb(i);
        reveal_with_fuel(ten, 19);
        lemma_ten_adds(18, left);
        lemma_ten_adds(left, 0);
        assert(ten(18) == 1000000000000000000);
        assert(ten((309 - limb_start(i)) as nat) == 1000000000000000000 * t);
        assert(0 <= l < 1000000000000000000);
        assert(h * (1000000000000000000 * t) <= (h * 1000000000000000000 + l) * t) by (nonlinear_arith)
            requires
                l >= 0,
                t >= 1,
        ;
        assert((h * 1000000000000000000 + l + 1) * t <= (h + 1) * (1000000000000000000 * t))
            by (nonlinear_arith)
            requires
                l < 1000000000000000000,
                t >= 1,
        ;
    }
}

/// Digits whose first pieces are beyond those of the bound are beyond it, and
/// digits whose first pieces are below are below it.
proof fn lemma_prefix_decides(p: Seq<char>, i: int)
    requires
        0 <= i <= 18,
        p.len() == 309,
        text::all_digits(p),
    ensures
        value(p.take(limb_start(i))) > limit_prefix(i) ==> value(p) >= overflow(),
        value(p.take(limb_start(i))) < limit_prefix(i) ==> value(p) < overflow(),
{
    let start = limb_start(i);
    let front = p.take(start);
    let rest = p.skip(start);
    let t = ten(rest.len());
    lemma_all_digits_part(p, 0, start);
    lemma_all_digits_part(p, start, 309);
    assert(front =~= p.subrange(0, start));
    assert(rest =~= p.subrange(start, 309));
    assert(front + rest =~= p);
    lemma_value_concat(front, rest);
    lemma_value(rest);
    lemma_limit_prefix(i);
    lemma_ten_adds(rest.len(), 0);
    let v = value(front);
    let h = limit_prefix(i);
    if v > h {
        lemma_no_less(h + 1, v, t);
    }
    if v < h {
        lemma_no_less(v + 1, h, t);
        assert((v + 1) * t == v * t + t) by (nonlinear_arith);
    }
}

/// One piece of the bound.
fn limb_at(i: usize) -> (r: u64)
    requires
        i < 18,
    ensures
        r == limb(i as int),
{
    if i == 0 {
        179
    } else if i == 1 {
        769313486231580793
    } else if i == 2 {
        728971405303415079
    } else if i == 3 {
        934132710037826936
    } else if i == 4 {
        173778980444968292
    } else if i == 5 {
        764750946649017977
    } else if i == 6 {
        587207096330286416
    } else if i == 7 {
        692887910946555547
    } else if i == 8 {
        851940402630657488
    } else if i == 9 {
        671505820681908902
    } else if i == 10 {
        708383676273854
    } else if i == 11 {
        845817711531764475
    } else if i == 12 {
        730270069855571366
    } else if i == 13 {
        959622842914819860
    } else if i == 14 {
        834936475292719074
    } else if i == 15 {
        168444365510704342
    } else if i == 16 {
        711559699508093042
    } else {
        880177904174497792
    }
}

/// The digit at `i`, or zero behind the last.
fn digit_at(d: &[char], i: usize) -> (r: u64)
    requires
        text::all_digits(d@),
        i < 309,
    ensures
        number::digit_of(padded(d@)[i as int], 10) == Some(r as int),
        r < 10,
{
    if i < d.len() {
        assert('0' <= d@[i as int] <= '9');
        match digit(d[i], 10) {
            Some(r) => r,
            None => 0,
        }
    } else {
        0
    }
}

/// The number that the digits from `from` to `to` denote.
fn piece(d: &[char], from: usize, to: usize) -> (r: u64)
    requires
        text::all_digits(d@),
        from <= to <= 309,
        to - from <= 18,
    ensures
        r == value(padded(d@).subrange(from as int, to as int)),
{
    let ghost p = padded(d@);
    let mut r: u64 = 0;
    let mut i: usize = from;
    proof {
        lemma_padded(d@);
        assert(p.subrange(from as int, from as int) =~= seq![]);
    }
    while i < to
        invariant
            from <= i <= to <= 309,
            to - from <= 18,
            text::all_digits(d@),
            p == padded(d@),
            text::all_digits(p),
            r == value(p.subrange(from as int, i as int)),
        decreases to - i,
    {
        proof {
            let before = p.subrange(from as int, i as int);
            let after = p.subrange(from as int, i + 1);
            lemma_all_digits_part(p, from as int, i as int);
            lemma_all_digits_part(p, from as int, i + 1);
            lemma_value(before);
            lemma_value(after);
            lemma_ten_grows((i - from) as nat, 17);
            reveal_with_fuel(ten, 19);
            assert(ten(17) == 100000000000000000);
            assert(after.drop_last() =~= before);
            assert(after.last() == p[i as int]);
        }
        r = r * 10 + digit_at(d, i);
        i = i + 1;
    }
    r
}

/// The digits of `d`, as many as the bound has, are not below it.
fn digits_reach(d: &[char]) -> (r: bool)
    requires
        text::all_digits(d@),
    ensures
        r == (value(padded(d@)) >= overflow()),
{
    let ghost p = padded(d@);
    let mut i: usize = 0;
    let mut from: usize = 0;
    proof {
        lemma_padded(d@);
        assert(p.take(0) =~= seq![]);
    }
    while i < LIMBS
        invariant
            i <= 18,
            from == limb_start(i as int),
            from <= 309,
            text::all_digits(d@),
            p == padded(d@),
            text::all_digits(p),
            value(p.take(from as int)) == limit_prefix(i as int),
        decreases 18 - i,
    {
        let to: usize = if i == 0 {
            3
        } else {
            from + 18
        };
        let r = piece(d, from, to);
        let l = limb_at(i);
        proof {
            let front = p.take(from as int);
            let next = p.subrange(from as int, to as int);
            lemma_all_digits_part(p, 0, from as int);
            lemma_all_digits_part(p, from as int, to as int);
            assert(front =~= p.subrange(0, from as int));
            lemma_value_concat(front, next);
            assert(front + next =~= p.take(to as int));
            reveal_with_fuel(ten, 19);
            assert(ten(18) == 1000000000000000000);
            if i == 0 {
                assert(value(front) == 0);
                assert(0 * ten(3) == 0);
            }
            lemma_prefix_decides(p, i + 1);
        }
        if r > l {
            return true;
        }
        if r < l {
            return false;
        }
        from = to;
        i = i + 1;
    }
    proof {
        lemma_limit();
        assert(p.take(309) =~= p);
    }
    true
}

/// The number that digits denote, unless it is far beyond every count.
fn big_value(s: &[char]) -> (r: Option<i128>)
    requires
        text::all_digits(s@),
    ensures
        match r {
            Some(n) => value(s@) == n && 0 <= n <= 100000000000000000000000000000,
            None => value(s@) > 100000000000000000000000000000,
        },
{
    let mut n: i128 = 0;
    let mut i: usize = 0;
    assert(s@.take(0) =~= seq![]);
    while i < s.len()
        invariant
            i <= s@.len(),
            text::all_digits(s@),
            value(s@.take(i as int)) == n,
            0 <= n <= 100000000000000000000000000000,
        decreases s@.len() - i,
    {
        proof {
            lemma_all_digits_part(s@, 0, i as int);
            lemma_all_digits_part(s@, 0, i + 1);
            lemma_all_digits_part(s@, i + 1, s@.len() as int);
            assert(s@.take(i as int) =~= s@.subrange(0, i as int));
            assert(s@.take(i + 1) =~= s@.subrange(0, i + 1));
            lemma_value(s@.take(i as int));
            lemma_value(s@.take(i + 1));
            assert(s@.take(i + 1).drop_last() =~= s@.take(i as int));
            assert('0' <= s@[i as int] <= '9');
        }
        let d = match digit(s[i], 10) {
            Some(d) => d,
            None => 0,
        };
        let next: i128 = n * 10 + d as i128;
        assert(value(s@.take(i + 1)) == next);
        if next > 100000000000000000000000000000 {
            proof {
                let front = s@.take(i + 1);
                let rest = s@.skip(i + 1);
                assert(rest =~= s@.subrange(i + 1, s@.len() as int));
                lemma_value_concat(front, rest);
                assert(front + rest =~= s@);
                lemma_value(rest);
                lemma_ten_adds(rest.len(), 0);
                lemma_no_less(1, ten(rest.len()), next as int);
                assert(next * ten(rest.len()) >= next) by (nonlinear_arith)
                    requires
                        next >= 0,
                        ten(rest.len()) >= 1,
                ;
            }
            return None;
        }
        n = next;
        i = i + 1;
    }
    assert(s@.take(i as int) =~= s@);
    Some(n)
}

/// Nothing times a power of ten stays below the bound.
proof fn lemma_zero_is_finite(scale: int)
    ensures
        !reaches(0, scale, overflow()),
{
    lemma_overflow_width();
    if scale >= 0 {
        assert(0 * ten(scale as nat) == 0);
    } else {
        lemma_ten_adds((-scale) as nat, 0);
        lemma_no_less(1, overflow(), ten((-scale) as nat));
    }
}

/// The exponent behind its mark, unless it is far beyond every count; then
/// whether it is negative.
fn read_exponent(e: &[char]) -> (r: Result<i128, bool>)
    requires
        record::is_exponent(e@),
    ensures
        ({
            let wanted = if e@[0] == '-' {
                -value(e@.skip(1))
            } else if e@[0] == '+' {
                value(e@.skip(1))
            } else {
                value(e@)
            };
            match r {
                Ok(n) => wanted == n && -100000000000000000000000000000 <= n
                    <= 100000000000000000000000000000,
                Err(true) => wanted < -100000000000000000000000000000,
                Err(false) => wanted > 100000000000000000000000000000,
            }
        }),
{
    let negative = e[0] == '-';
    let digits = if e[0] == '-' || e[0] == '+' {
        slice_subrange(e, 1, e.len())
    } else {
        e
    };
    match big_value(digits) {
        Some(n) => Ok(
            if negative {
                -n
            } else {
                n
            },
        ),
        None => Err(negative),
    }
}

/// The number of zeros in front.
fn leading_zeros(s: &[char]) -> (r: usize)
    ensures
        r <= s@.len(),
        forall|i: int| 0 <= i < r ==> #[trigger] s@[i] == '0',
        r < s@.len() ==> s@[r as int] != '0',
{
    let mut z: usize = 0;
    while z < s.len() && s[z] == '0'
        invariant
            z <= s@.len(),
            forall|i: int| 0 <= i < z ==> #[trigger] s@[i] == '0',
        decreases s@.len() - z,
    {
        z = z + 1;
    }
    z
}

/// The digits before and behind the point of a mantissa, in one run, and how
/// many of them stand behind it.
fn split_mantissa(mantissa: &[char]) -> (r: (Vec<char>, usize))
    requires
        record::is_mantissa(mantissa@),
    ensures
        text::all_digits(r.0@),
        match text::index_of(mantissa@, '.') {
            Some(i) => r.0@ == mantissa@.take(i) + mantissa@.skip(i + 1) && r.1
                == mantissa@.skip(i + 1).len(),
            None => r.0@ == mantissa@ + Seq::<char>::empty() && r.1 == 0,
        },
        r.1 <= r.0@.len(),
{
    let mut digits: Vec<char> = Vec::new();
    match find_char(mantissa, '.') {
        Some(i) => {
            assert(i < mantissa.len());
            let behind = slice_subrange(mantissa, i + 1, mantissa.len());
            digits.extend_from_slice(slice_subrange(mantissa, 0, i));
            digits.extend_from_slice(behind);
            proof {
                lemma_value_concat(mantissa@.take(i as int), mantissa@.skip(i + 1));
                assert(digits@ =~= mantissa@.take(i as int) + mantissa@.skip(i + 1));
            }
            (digits, behind.len())
        },
        None => {
            digits.extend_from_slice(mantissa);
            assert(digits@ =~= mantissa@);
            assert(digits@ =~= mantissa@ + Seq::<char>::empty());
            (digits, 0)
        },
    }
}

/// Decides whether a float literal denotes a finite number.
pub fn denotes_finite(literal: &[char]) -> (r: bool)
    requires
        record::is_float(literal@),
    ensures
        r == is_finite(literal@),
{
    let number = if literal.len() > 0 && literal[0] == '-' {
        slice_subrange(literal, 1, literal.len())
    } else {
        literal
    };
    let (mantissa, power): (&[char], Result<i128, bool>) = match find_mark(number) {
        Some(i) => {
            assert(i < number.len());
            (
                slice_subrange(number, 0, i),
                read_exponent(slice_subrange(number, i + 1, number.len())),
            )
        },
        None => (number, Ok(0)),
    };
    let (digits, behind) = split_mantissa(mantissa);
    let zeros = leading_zeros(&digits);
    let d = slice_subrange(&digits, zeros, digits.len());
    let ghost scale = exponent(literal@) - fraction(literal@).len();
    proof {
        assert(digits@ == whole(literal@) + fraction(literal@));
        assert(behind == fraction(literal@).len());
        lemma_leading_zeros(digits@, zeros as int);
        assert(d@ =~= digits@.skip(zeros as int));
        lemma_zero_is_finite(scale);
    }
    if d.len() == 0 {
        assert(value(d@) == 0);
        return true;
    }
    proof {
        lemma_width_decides(d@, scale);
        if d@.len() + scale == 309 {
            lemma_digits_decide(d@, scale);
        }
    }
    assert(d.len() <= usize::MAX && digits.len() <= usize::MAX);
    match power {
        Err(negative) => negative,
        Ok(e) => {
            let width: i128 = d.len() as i128 + e - behind as i128;
            if width == 309 {
                !digits_reach(d)
            } else {
                width < 309
            }
        },
    }
}

/// The parts of a float literal as a writer puts them down: a sign, digits,
/// perhaps a point and more digits, perhaps an exponent with or without a sign.
pub struct Literal {
    pub negative: bool,
    pub whole: Seq<char>,
    pub fraction: Option<Seq<char>>,
    pub exponent: Option<(char, Option<char>, Seq<char>)>,
}

/// Digits where digits belong, at least one of them in front, and a point or
/// an exponent.
pub open spec fn well_formed(l: Literal) -> bool {
    &&& text::all_digits(l.whole)
    &&& match l.fraction {
        Some(f) => text::all_digits(f) && l.whole.len() + f.len() > 0,
        None => l.whole.len() > 0 && l.exponent is Some,
    }
    &&& match l.exponent {
        Some((mark, sign, digits)) => {
            &&& mark == 'e' || mark == 'E'
            &&& sign == None::<char> || sign == Some('+') || sign == Some('-')
            &&& digits.len() > 0
            &&& text::all_digits(digits)
        },
        None => true,
    }
}

/// The literal as text.
pub open spec fn literal_text(l: Literal) -> Seq<char> {
    (if l.negative {
        seq!['-']
    } else {
        seq![]
    }) + mantissa_text(l) + exponent_text(l)
}

/// The digits and the point.
pub open spec fn mantissa_text(l: Literal) -> Seq<char> {
    match l.fraction {
        Some(f) => l.whole + seq!['.'] + f,
        None => l.whole,
    }
}

/// The exponent with its mark.
pub open spec fn exponent_text(l: Literal) -> Seq<char> {
    match l.exponent {
        Some((mark, Some(sign), digits)) => seq![mark, sign] + digits,
        Some((mark, None, digits)) => seq![mark] + digits,
        None => seq![],
    }
}

/// The digits of the literal as one number.
pub open spec fn literal_digits(l: Literal) -> int {
    value(
        l.whole + (match l.fraction {
            Some(f) => f,
            None => seq![],
        }),
    )
}

/// The power of ten by which they are multiplied.
pub open spec fn literal_scale(l: Literal) -> int {
    (match l.exponent {
        Some((_, Some('-'), digits)) => -value(digits),
        Some((_, _, digits)) => value(digits),
        None => 0,
    }) - (match l.fraction {
        Some(f) => f.len() as int,
        None => 0,
    })
}

/// The mantissa of a literal, found again in its text.
proof fn lemma_mantissa_text(l: Literal)
    requires
        well_formed(l),
    ensures
        record::is_mantissa(mantissa_text(l)),
        l.fraction is Some ==> mantissa_text(l).contains('.') && text::index_of(
            mantissa_text(l),
            '.',
        ) == Some(l.whole.len() as int),
        l.fraction is None ==> text::index_of(mantissa_text(l), '.') is None,
        forall|i: int|
            0 <= i < mantissa_text(l).len() ==> '0' <= (#[trigger] mantissa_text(l)[i]) <= '9'
                || mantissa_text(l)[i] == '.',
        mantissa_text(l).len() > 0,
{
    let m = mantissa_text(l);
    let point = text::equal_to('.');
    assert forall|i: int| 0 <= i < l.whole.len() implies !point(#[trigger] m[i]) && m[i]
        == l.whole[i] by {
        assert('0' <= l.whole[i] <= '9');
    }
    match l.fraction {
        Some(f) => {
            let n = l.whole.len() as int;
            assert(m[n] == '.');
            text::lemma_first_where(m, point, n);
            assert(m.take(n) =~= l.whole);
            assert(m.skip(n + 1) =~= f);
            assert forall|i: int| 0 <= i < m.len() implies '0' <= (#[trigger] m[i]) <= '9' || m[i]
                == '.' by {
                if i < n {
                    assert('0' <= l.whole[i] <= '9');
                } else if i > n {
                    assert(m[i] == f[i - n - 1]);
                }
            }
        },
        None => {
            text::lemma_first_where_none(m, point);
        },
    }
}

/// Every literal that a writer can put down has the float shape, and is finite
/// exactly when digits times power of ten lie below the bound: the sign, the
/// case of the mark and a `+` mean nothing, and a point shifts by as many
/// digits as follow it.
pub proof fn law_literals_denote_their_numbers(l: Literal)
    requires
        well_formed(l),
    ensures
        record::is_float(literal_text(l)),
        is_finite(literal_text(l)) <==> !reaches(
            literal_digits(l),
            literal_scale(l),
            overflow(),
        ),
{
    let s = literal_text(l);
    let m = mantissa_text(l);
    let e = exponent_text(l);
    let number = m + e;
    let mark = record::exponent_mark();
    lemma_mantissa_text(l);
    assert(record::unsigned_part(s) =~= number) by {
        assert('0' <= m[0] <= '9' || m[0] == '.');
        if l.negative {
            assert(s.skip(1) =~= number);
        } else {
            assert(s =~= number);
            assert(number[0] == m[0]);
        }
    }
    assert forall|i: int| 0 <= i < m.len() implies !mark(#[trigger] number[i]) by {
        assert(number[i] == m[i]);
    }
    match l.exponent {
        Some((c, sign, digits)) => {
            let n = m.len() as int;
            assert(number[n] == c);
            text::lemma_first_where(number, mark, n);
            assert(number.take(n) =~= m);
            let behind = number.skip(n + 1);
            match sign {
                Some(g) => {
                    assert(behind =~= seq![g] + digits);
                    assert(behind.skip(1) =~= digits);
                },
                None => {
                    assert(behind =~= digits);
                    assert('0' <= digits[0] <= '9');
                },
            }
        },
        None => {
            text::lemma_first_where_none(number, mark);
            assert(number =~= m);
            let i = m.index_of('.');
            assert(number.contains('.'));
        },
    }
    assert(mantissa(s) =~= m);
    match l.fraction {
        Some(f) => {
            assert(m.take(l.whole.len() as int) =~= l.whole);
            assert(m.skip((l.whole.len() + 1) as int) =~= f);
        },
        None => {},
    }
}

/// The parts of a text that has the float shape.
pub open spec fn parts(s: Seq<char>) -> Literal {
    let number = record::unsigned_part(s);
    let m = mantissa(s);
    Literal {
        negative: s[0] == '-',
        whole: whole(s),
        fraction: if text::index_of(m, '.') is Some {
            Some(fraction(s))
        } else {
            None
        },
        exponent: match text::first_where(number, record::exponent_mark()) {
            Some(i) => {
                let e = number.skip(i + 1);
                if e[0] == '+' || e[0] == '-' {
                    Some((number[i], Some(e[0]), e.skip(1)))
                } else {
                    Some((number[i], None, e))
                }
            },
            None => None,
        },
    }
}

/// Nothing else has the float shape: whatever has it is a literal that a
/// writer can put down.
pub proof fn law_only_literals_have_the_float_shape(s: Seq<char>)
    requires
        record::is_float(s),
    ensures
        exists|l: Literal| #[trigger] well_formed(l) && s == literal_text(l),
{
    let l = parts(s);
    let number = record::unsigned_part(s);
    let m = mantissa(s);
    let mark = record::exponent_mark();
    text::lemma_first_where_found(number, mark);
    text::lemma_first_where_found(m, text::equal_to('.'));
    if let Some(i) = text::index_of(m, '.') {
        assert(m =~= m.take(i) + seq!['.'] + m.skip(i + 1));
    }
    assert(mantissa_text(l) =~= m);
    match text::first_where(number, mark) {
        Some(i) => {
            let e = number.skip(i + 1);
            assert(mark(number[i]));
            assert(number =~= m + (seq![number[i]] + e));
            if e[0] == '+' || e[0] == '-' {
                assert(e =~= seq![e[0]] + e.skip(1));
                assert(seq![number[i]] + e =~= exponent_text(l));
            }
        },
        None => {
            if text::index_of(m, '.') is None {
                let k = m.index_of('.');
                assert(m[k] == '.');
                assert(text::equal_to('.')(m[k]));
            }
            assert(number =~= m + exponent_text(l));
        },
    }
    if s[0] == '-' {
        assert(s =~= seq!['-'] + number);
        assert(s =~= literal_text(l));
    } else {
        assert(s =~= literal_text(l));
    }
    assert(well_formed(l));
}

} // verus!
