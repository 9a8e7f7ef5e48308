use vstd::prelude::*;
use vstd::string::*;

verus! {

/// A character that reads as a base-10 digit.
pub open spec fn is_digit_char(c: char) -> bool {
    '0' <= c && c <= '9'
}

/// The value of a digit character.
pub open spec fn char_value(c: char) -> int {
    c as int - '0' as int
}

/// The base-10 value of `c`, or `None` when `c` is not one of `'0'..='9'`.
pub fn digit_value(c: char) -> (r: Option<u32>)
    ensures
        r is Some <==> is_digit_char(c),
        r is Some ==> r->0 as int == char_value(c) && r->0 <= 9,
{
    if '0' <= c && c <= '9' {
        Some(c as u32 - '0' as u32)
    } else {
        None
    }
}

/// The digits of `s`, read one character at a time.
pub open spec fn digit_values(s: Seq<char>) -> Seq<int> {
    s.map_values(|c: char| char_value(c))
}

/// A sequence of machine integers, read as mathematical integers.
pub open spec fn as_ints(v: Seq<u32>) -> Seq<int> {
    v.map_values(|x: u32| x as int)
}

/// Weights of the first check digit, applied to the first nine digits.
pub open spec fn first_weights() -> Seq<int> {
    seq![10, 9, 8, 7, 6, 5, 4, 3, 2]
}

/// Weights of the second check digit, applied to the first ten digits.
pub open spec fn second_weights() -> Seq<int> {
    seq![11, 10, 9, 8, 7, 6, 5, 4, 3, 2]
}

/// The sum of the first `n` digits, each times the weight at its position.
pub open spec fn weighted_sum(d: Seq<int>, w: Seq<int>, n: nat) -> int
    decreases n,
{
    if n == 0 {
        0
    } else {
        weighted_sum(d, w, (n - 1) as nat) + d[n - 1] * w[n - 1]
    }
}

/// Ten times the weighted sum of the digits that `w` covers, modulo 11.
pub open spec fn check_remainder(d: Seq<int>, w: Seq<int>) -> int {
    (weighted_sum(d, w, w.len()) * 10) % 11
}

/// The check digit that the weights `w` give for the digits `d`: ten times
/// the weighted sum, modulo 11, where a remainder of 10 stands for 0.
pub open spec fn check_digit(d: Seq<int>, w: Seq<int>) -> int {
    let r = check_remainder(d, w);
    if r == 10 {
        0
    } else {
        r
    }
}

/// The digit at `index` is the check digit that the weights `w` give.
pub open spec fn group_holds(d: Seq<int>, w: Seq<int>, index: int) -> bool {
    d[index] == check_digit(d, w)
}

/// Every character of `s` is the same as the first.
pub open spec fn all_same(s: Seq<char>) -> bool {
    forall|i: int| 0 <= i < s.len() ==> #[trigger] s[i] == s[0]
}

/// `s` is a well-formed CPF: exactly eleven digit characters, not all the
/// same, whose tenth and eleventh digits are the two check digits.
pub open spec fn is_valid_cpf(s: Seq<char>) -> bool {
    &&& s.len() == 11
    &&& forall|i: int| 0 <= i < 11 ==> is_digit_char(#[trigger] s[i])
    &&& !all_same(s)
    &&& group_holds(digit_values(s), first_weights(), 9)
    &&& group_holds(digit_values(s), second_weights(), 10)
}

/// Checks one check digit: the digit of `numbers` at `validator_index`
/// against the weighted sum of the digits that `weights` covers.
fn validate_group(weights: &[u32], numbers: &[u32], validator_index: usize) -> (r: bool)
    requires
        numbers@.len() == 11,
        weights@.len() < numbers@.len(),
        validator_index < numbers@.len(),
        forall|i: int| 0 <= i < numbers@.len() ==> numbers@[i] <= 9,
        forall|i: int| 0 <= i < weights@.len() ==> weights@[i] <= 11,
    ensures
        r == group_holds(as_ints(numbers@), as_ints(weights@), validator_index as int),
{
    let ghost d = as_ints(numbers@);
    let ghost w = as_ints(weights@);
    let n = weights.len();
    let mut sum: u32 = 0;
    let mut i: usize = 0;
    while i < n
        invariant
            n == weights@.len(),
            n < 11,
            i <= n,
            d == as_ints(numbers@),
            w == as_ints(weights@),
            numbers@.len() == 11,
            forall|k: int| 0 <= k < numbers@.len() ==> numbers@[k] <= 9,
            forall|k: int| 0 <= k < weights@.len() ==> weights@[k] <= 11,
            sum as int == weighted_sum(d, w, i as nat),
            sum <= 99 * i,
        decreases n - i,
    {
        let v = numbers[i];
        let x = weights[i];
        assert(v * x <= 99) by (nonlinear_arith)
            requires
                v <= 9,
                x <= 11,
        ;
        sum = sum + v * x;
        i = i + 1;
    }
    let result = sum * 10 % 11;
    // A remainder above 10 cannot occur: it is ruled out here, not tested.
    proof {
        assert(result < 11);
    }
    let expected = if result == 10 {
        0
    } else {
        result
    };
    numbers[validator_index] == expected
}

/// Checks the tenth digit, the first check digit.
fn validate_first_digit(numbers: &[u32]) -> (r: bool)
    requires
        numbers@.len() == 11,
        forall|i: int| 0 <= i < numbers@.len() ==> numbers@[i] <= 9,
    ensures
        r == group_holds(as_ints(numbers@), first_weights(), 9),
{
    let weights: [u32; 9] = [10, 9, 8, 7, 6, 5, 4, 3, 2];
    assert(as_ints(weights@) =~= first_weights());
    validate_group(weights.as_slice(), numbers, 9)
}

/// Checks the eleventh digit, the second check digit.
fn validate_second_digit(numbers: &[u32]) -> (r: bool)
    requires
        numbers@.len() == 11,
        forall|i: int| 0 <= i < numbers@.len() ==> numbers@[i] <= 9,
    ensures
        r == group_holds(as_ints(numbers@), second_weights(), 10),
{
    let weights: [u32; 10] = [11, 10, 9, 8, 7, 6, 5, 4, 3, 2];
    assert(as_ints(weights@) =~= second_weights());
    validate_group(weights.as_slice(), numbers, 10)
}

/// Whether `input` is a valid CPF: exactly eleven characters, each a digit,
/// not all the same, and both check digits right. Nothing is stripped from
/// the input first, so a CPF written with dots and a dash is not valid.
pub fn validate_cpf(input: &str) -> (r: bool)
    ensures
        r == is_valid_cpf(input@),
        input@.len() != 11 ==> !r,
        input@.len() == 11 && (exists|i: int| 0 <= i < 11 && !is_digit_char(#[trigger] input@[i]))
            ==> !r,
        input@.len() == 11 && all_same(input@) ==> !r,
{
    if input.unicode_len() != 11 {
        return false;
    }
    let mut numbers: Vec<u32> = Vec::new();
    let mut i: usize = 0;
    while i < 11
        invariant
            input@.len() == 11,
            i <= 11,
            numbers@.len() <= i,
            numbers@.len() == i <==> forall|j: int| 0 <= j < i ==> is_digit_char(#[trigger] input@[j]),
            numbers@.len() == i ==> forall|j: int|
                0 <= j < i ==> numbers@[j] as int == char_value(#[trigger] input@[j]),
            forall|k: int| 0 <= k < numbers@.len() ==> numbers@[k] <= 9,
        decreases 11 - i,
    {
        let c = input.get_char(i);
        match digit_value(c) {
            Some(v) => numbers.push(v),
            None => {},
        }
        i = i + 1;
    }
    if numbers.len() != 11 {
        return false;
    }
    assert(as_ints(numbers@) =~= digit_values(input@));
    let mut differs = false;
    let mut j: usize = 1;
    while j < 11
        invariant
            numbers@.len() == 11,
            input@.len() == 11,
            1 <= j <= 11,
            forall|k: int| 0 <= k < 11 ==> numbers@[k] as int == char_value(#[trigger] input@[k]),
            forall|k: int| 0 <= k < 11 ==> is_digit_char(#[trigger] input@[k]),
            differs <==> exists|k: int| 0 <= k < j && #[trigger] input@[k] != input@[0],
        decreases 11 - j,
    {
        proof {
            let a = input@[j as int];
            let b = input@[0];
            assert(numbers@[j as int] as int == char_value(a));
            assert(numbers@[0] as int == char_value(b));
            assert(a as int == b as int ==> a == b);
        }
        if numbers[j] != numbers[0] {
            differs = true;
        }
        j = j + 1;
    }
    if !differs {
        return false;
    }
    validate_first_digit(numbers.as_slice()) && validate_second_digit(numbers.as_slice())
}

/// The weighted sum of the first `n` digits reads only those digits.
pub proof fn lemma_weighted_sum_prefix(d1: Seq<int>, d2: Seq<int>, w: Seq<int>, n: nat)
    requires
        forall|j: int| 0 <= j < n ==> d1[j] == d2[j],
    ensures
        weighted_sum(d1, w, n) == weighted_sum(d2, w, n),
    decreases n,
{
    if n > 0 {
        lemma_weighted_sum_prefix(d1, d2, w, (n - 1) as nat);
    }
}

/// Where ten times the first weighted sum leaves 10 modulo 11, a valid CPF
/// has `0` as its tenth digit.
pub proof fn lemma_remainder_ten_gives_zero(s: Seq<char>)
    requires
        s.len() == 11,
        check_remainder(digit_values(s), first_weights()) == 10,
        is_valid_cpf(s),
    ensures
        s[9] == '0',
{
    let a = s[9];
    assert(is_digit_char(a));
    assert(char_value(a) == 0);
    assert(a as int == '0' as int);
}

/// The verdict depends on the characters of the text alone: two texts with
/// the same characters get the same verdict, however often it is asked.
pub proof fn lemma_verdict_depends_on_text(a: &str, b: &str)
    requires
        a@ == b@,
    ensures
        is_valid_cpf(a@) == is_valid_cpf(b@),
{
}

/// Changing the digit at `i` moves the weighted sum by the change times the
/// weight at `i`.
pub proof fn lemma_weighted_sum_update(d: Seq<int>, e: Seq<int>, w: Seq<int>, n: nat, i: int)
    requires
        0 <= i < n,
        forall|j: int| 0 <= j < n && j != i ==> d[j] == e[j],
    ensures
        weighted_sum(e, w, n) == weighted_sum(d, w, n) + (e[i] - d[i]) * w[i],
    decreases n,
{
    if n - 1 == i {
        lemma_weighted_sum_prefix(d, e, w, (n - 1) as nat);
        assert(e[i] * w[i] == d[i] * w[i] + (e[i] - d[i]) * w[i]) by (nonlinear_arith);
    } else {
        lemma_weighted_sum_update(d, e, w, (n - 1) as nat, i);
    }
}

/// Two remainders modulo 11 that a shift by `k` relates and that give the
/// same check digit are equal, or are 0 and 10 with `k` moving one to the
/// other.
proof fn lemma_same_digit_after_shift(x: int, k: int)
    requires
        (if x % 11 == 10 { 0 } else { x % 11 }) == (if (x + k) % 11 == 10 {
            0
        } else {
            (x + k) % 11
        }),
    ensures
        k % 11 == 0 || (x % 11 == 0 && (x + k) % 11 == 10 && k % 11 == 10) || (x % 11 == 10 && (x
            + k) % 11 == 0 && k % 11 == 1),
{
}

/// A change of one digit, times a weight from 2 to 10, times ten, is never
/// a multiple of 11; and only with weight 5 (or 10, whose neighbour 11 is a
/// multiple of 11) can it move both remainders by one step either way.
proof fn lemma_shift_residues(delta: int, w: int)
    requires
        -9 <= delta <= 9,
        delta != 0,
        2 <= w <= 10,
    ensures
        (delta * w * 10) % 11 != 0,
        w != 5 && w != 10 ==> !(((delta * w * 10) % 11 == 1 || (delta * w * 10) % 11 == 10) && ((
        delta * (w + 1) * 10) % 11 == 1 || (delta * (w + 1) * 10) % 11 == 10)),
{
    assert(delta * (w + 1) * 10 == delta * w * 10 + delta * 10) by (nonlinear_arith);
    if w == 2 {
    } else if w == 3 {
    } else if w == 4 {
    } else if w == 5 {
    } else if w == 6 {
    } else if w == 7 {
    } else if w == 8 {
    } else if w == 9 {
    } else {
    }
}

/// Changing one digit of a valid CPF into another digit gives a text that
/// is not a valid CPF, except at the first or sixth digit, and there only
/// where the first remainder moves between 0 and 10, which both give the
/// check digit 0.
pub proof fn lemma_single_digit_mutation(s: Seq<char>, i: int, c: char)
    requires
        is_valid_cpf(s),
        0 <= i < 11,
        is_digit_char(c),
        c != s[i],
    ensures
        is_valid_cpf(s.update(i, c)) ==> {
            let r = check_remainder(digit_values(s), first_weights());
            let q = check_remainder(digit_values(s.update(i, c)), first_weights());
            &&& (i == 0 || i == 5)
            &&& ((r == 0 && q == 10) || (r == 10 && q == 0))
        },
{
    let t = s.update(i, c);
    let d = digit_values(s);
    let e = digit_values(t);
    let w1 = first_weights();
    let w2 = second_weights();
    assert(forall|j: int| 0 <= j < 11 && j != i ==> d[j] == e[j]);
    assert(e[i] != d[i]);
    if is_valid_cpf(t) {
        if i >= 9 {
            lemma_weighted_sum_prefix(d, e, w1, 9);
            lemma_weighted_sum_prefix(d, e, w2, 10);
            assert(false);
        } else {
            let delta = e[i] - d[i];
            let s1 = weighted_sum(d, w1, 9);
            let s2 = weighted_sum(d, w2, 10);
            lemma_weighted_sum_update(d, e, w1, 9, i);
            lemma_weighted_sum_update(d, e, w2, 10, i);
            assert(w1[i] == 10 - i);
            assert(w2[i] == 11 - i);
            let a1 = w1[i];
            let a2 = w2[i];
            let k1 = delta * a1 * 10;
            let k2 = delta * a2 * 10;
            assert((s1 + delta * a1) * 10 == s1 * 10 + delta * a1 * 10) by (nonlinear_arith);
            assert((s2 + delta * a2) * 10 == s2 * 10 + delta * a2 * 10) by (nonlinear_arith);
            lemma_same_digit_after_shift(s1 * 10, k1);
            lemma_same_digit_after_shift(s2 * 10, k2);
            lemma_shift_residues(delta, w1[i]);
            if i != 0 {
                lemma_shift_residues(delta, w2[i]);
            }
        }
    }
}

} // verus!
