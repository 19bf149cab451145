//! The identifiers that the pool gives to the VMs it spawns.

use crate::stack_key::{StackKey, StackKeyView};
use vstd::prelude::*;

verus! {

/// `String::push` of std: the string afterwards is the string before with the
/// character behind it.
pub assume_specification[ String::push ](string: &mut String, c: char)
    ensures
        final(string)@ == old(string)@.push(c),
;

/// Whether `c` is an ASCII letter or an ASCII digit.
pub open spec fn is_id_char(c: char) -> bool {
    ||| 'a' <= c <= 'z'
    ||| 'A' <= c <= 'Z'
    ||| '0' <= c <= '9'
}

/// The character that stands for `c` in a VM ID.
pub open spec fn sanitized_char(c: char) -> char {
    if is_id_char(c) {
        c
    } else {
        '_'
    }
}

/// `input` with every character outside `[A-Za-z0-9]` turned into `_`.
pub open spec fn sanitized(input: Seq<char>) -> Seq<char> {
    input.map_values(|c: char| sanitized_char(c))
}

/// Map the characters of a stack name or version to ones that are safe in a
/// VM ID.
///
/// Providers vary in how strict they are about VM IDs (filesystem-safe,
/// URL-safe, etc.). `[A-Za-z0-9_]` is the conservative intersection.
pub fn sanitize(input: &str) -> (output: String)
    ensures
        output@ == sanitized(input@),
{
    let mut output = String::new();
    for c in it: input.chars()
        invariant
            it.seq() == input@,
            output@ == sanitized(input@.take(it.index() as int)),
    {
        let keep = ('a' <= c && c <= 'z') || ('A' <= c && c <= 'Z') || ('0' <= c && c <= '9');
        output.push(
            if keep {
                c
            } else {
                '_'
            },
        );
        proof {
            assert(input@.take(it.index() + 1) =~= input@.take(it.index() as int).push(c));
            assert(sanitized(input@.take(it.index() + 1)) =~= sanitized(
                input@.take(it.index() as int),
            ).push(sanitized_char(c)));
        }
    }
    assert(input@.take(input@.len() as int) =~= input@);
    output
}

/// The character of the decimal digit `d`.
pub open spec fn digit(d: nat) -> char {
    (48 + d) as char
}

/// `n` in decimal, without leading zeros.
pub open spec fn decimal(n: nat) -> Seq<char>
    decreases n,
{
    if n < 10 {
        seq![digit(n)]
    } else {
        decimal(n / 10).push(digit(n % 10))
    }
}

fn digit_char(d: u64) -> (c: char)
    requires
        d < 10,
    ensures
        c == digit(d as nat),
{
    match d {
        0 => '0',
        1 => '1',
        2 => '2',
        3 => '3',
        4 => '4',
        5 => '5',
        6 => '6',
        7 => '7',
        8 => '8',
        _ => '9',
    }
}

fn push_decimal(output: &mut String, n: u64)
    ensures
        final(output)@ == old(output)@ + decimal(n as nat),
    decreases n,
{
    if n >= 10 {
        push_decimal(output, n / 10);
    }
    output.push(digit_char(n % 10));
    assert(output@ =~= old(output)@ + decimal(n as nat));
}

/// The ID of the VM that is spawned for `stack` under the number `seed`:
/// `warm-<stack name>-<version>-<seed>`, name and version sanitized.
pub open spec fn vm_id(stack: StackKeyView, seed: u64) -> Seq<char> {
    "warm-"@ + sanitized(stack.stack_name) + "-"@ + sanitized(stack.version) + "-"@ + decimal(
        seed as nat,
    )
}

/// Name the VM that is spawned for `stack` under the number `seed`.
pub fn seed_vm_id(stack: &StackKey, seed: u64) -> (id: String)
    ensures
        id@ == vm_id(stack@, seed),
{
    let mut id = "warm-".to_string();
    id.append(sanitize(&stack.stack_name).as_str());
    id.append("-");
    id.append(sanitize(&stack.version).as_str());
    id.append("-");
    push_decimal(&mut id, seed);
    id
}

/// Sanitizing keeps the length, leaves only `[A-Za-z0-9_]`, and changes
/// nothing when done again.
pub proof fn law_sanitized_is_id_safe(input: Seq<char>)
    ensures
        sanitized(input).len() == input.len(),
        forall|i: int|
            0 <= i < input.len() ==> {
                ||| is_id_char(#[trigger] sanitized(input)[i])
                ||| sanitized(input)[i] == '_'
            },
        sanitized(sanitized(input)) == sanitized(input),
{
    assert(sanitized(sanitized(input)) =~= sanitized(input));
}

/// Whether `text` has no hyphen in it.
spec fn hyphen_free(text: Seq<char>) -> bool {
    forall|i: int| 0 <= i < text.len() ==> text[i] != '-'
}

proof fn lemma_decimal_hyphen_free(n: nat)
    ensures
        decimal(n).len() > 0,
        hyphen_free(decimal(n)),
    decreases n,
{
    if n >= 10 {
        lemma_decimal_hyphen_free(n / 10);
    }
}

proof fn lemma_decimal_injective(m: nat, n: nat)
    requires
        decimal(m) == decimal(n),
    ensures
        m == n,
    decreases m,
{
    lemma_decimal_hyphen_free(m / 10);
    lemma_decimal_hyphen_free(n / 10);
    assert(decimal(m).last() == digit(m % 10));
    assert(decimal(n).last() == digit(n % 10));
    if m >= 10 && n >= 10 {
        assert(decimal(m / 10) =~= decimal(m).drop_last());
        assert(decimal(n / 10) =~= decimal(n).drop_last());
        lemma_decimal_injective(m / 10, n / 10);
    }
}

/// A text splits in one way only at its first hyphen.
proof fn lemma_split_at_hyphen(a: Seq<char>, rest_a: Seq<char>, b: Seq<char>, rest_b: Seq<char>)
    requires
        hyphen_free(a),
        hyphen_free(b),
        a.push('-') + rest_a == b.push('-') + rest_b,
    ensures
        a == b,
        rest_a == rest_b,
{
    let whole = a.push('-') + rest_a;
    assert(whole[a.len() as int] == '-');
    assert(whole[b.len() as int] == '-');
    if a.len() < b.len() {
        assert(whole[a.len() as int] == b[a.len() as int]);
    }
    if b.len() < a.len() {
        assert(whole[b.len() as int] == a[b.len() as int]);
    }
    assert(a =~= whole.take(a.len() as int));
    assert(b =~= whole.take(b.len() as int));
    assert(rest_a =~= whole.skip(a.len() as int + 1));
    assert(rest_b =~= whole.skip(b.len() as int + 1));
}

/// A VM ID tells its parts: two IDs are equal only if their sanitized stack
/// names, their sanitized versions and their seeds are equal.
pub proof fn law_vm_id_tells_its_parts(a: StackKeyView, m: u64, b: StackKeyView, n: u64)
    requires
        vm_id(a, m) == vm_id(b, n),
    ensures
        sanitized(a.stack_name) == sanitized(b.stack_name),
        sanitized(a.version) == sanitized(b.version),
        m == n,
{
    reveal_strlit("warm-");
    reveal_strlit("-");
    let name_a = sanitized(a.stack_name);
    let name_b = sanitized(b.stack_name);
    let version_a = sanitized(a.version);
    let version_b = sanitized(b.version);
    law_sanitized_is_id_safe(a.stack_name);
    law_sanitized_is_id_safe(b.stack_name);
    law_sanitized_is_id_safe(a.version);
    law_sanitized_is_id_safe(b.version);
    lemma_decimal_hyphen_free(m as nat);
    lemma_decimal_hyphen_free(n as nat);
    let tail_a = version_a.push('-') + decimal(m as nat);
    let tail_b = version_b.push('-') + decimal(n as nat);
    assert(vm_id(a, m).skip(5) =~= name_a.push('-') + tail_a);
    assert(vm_id(b, n).skip(5) =~= name_b.push('-') + tail_b);
    lemma_split_at_hyphen(name_a, tail_a, name_b, tail_b);
    lemma_split_at_hyphen(version_a, decimal(m as nat), version_b, decimal(n as nat));
    lemma_decimal_injective(m as nat, n as nat);
}

/// `text` with every character that is no ASCII letter and no ASCII digit written as an
/// underscore.
pub open spec fn underscored(text: Seq<char>) -> Seq<char> {
    Seq::new(
        text.len(),
        |i: int|
            if ('a' <= text[i] && text[i] <= 'z') || ('A' <= text[i] && text[i] <= 'Z') || ('0'
                <= text[i] && text[i] <= '9') {
                text[i]
            } else {
                '_'
            },
    )
}

/// The number that the decimal `digits` stand for.
pub open spec fn value(digits: Seq<char>) -> int
    decreases digits.len(),
{
    if digits.len() == 0 {
        0
    } else {
        10 * value(digits.drop_last()) + (digits.last() as int - '0' as int)
    }
}

/// Whether `digits` is how `n` is written in decimal: digits only, no leading zero.
pub open spec fn writes(digits: Seq<char>, n: int) -> bool {
    &&& digits.len() > 0
    &&& forall|i: int| 0 <= i < digits.len() ==> '0' <= #[trigger] digits[i] <= '9'
    &&& digits.len() > 1 ==> digits[0] != '0'
    &&& value(digits) == n
}

/// Whether `id` is `warm-`, the stack's name, a hyphen, its version, a hyphen and `seed`
/// in decimal, name and version with underscores for what is no letter and no digit.
pub open spec fn spells(id: Seq<char>, stack: StackKeyView, seed: u64) -> bool {
    exists|digits: Seq<char>| #[trigger]
        writes(digits, seed as int) && id == seq!['w', 'a', 'r', 'm', '-'] + underscored(
            stack.stack_name,
        ) + seq!['-'] + underscored(stack.version) + seq!['-'] + digits
}

proof fn lemma_decimal_writes(n: nat)
    ensures
        writes(decimal(n), n as int),
        n > 0 ==> decimal(n)[0] != '0',
    decreases n,
{
    if n < 10 {
        assert(decimal(n) =~= seq![digit(n)]);
        assert(decimal(n).drop_last() =~= Seq::<char>::empty());
        assert(value(Seq::<char>::empty()) == 0);
        assert(decimal(n).last() as int == 48 + n);
    } else {
        lemma_decimal_writes(n / 10);
        assert(decimal(n).drop_last() =~= decimal(n / 10));
        assert(decimal(n).last() as int == 48 + n % 10);
        assert(decimal(n)[0] == decimal(n / 10)[0]);
    }
}

/// Sanitizing changes every character that is no ASCII letter and no ASCII digit to an
/// underscore, and no other.
pub proof fn law_sanitized_is_underscored(input: Seq<char>)
    ensures
        sanitized(input) == underscored(input),
{
    assert(sanitized(input) =~= underscored(input));
}

/// A VM ID spells out the stack's name, its version and the seed.
pub proof fn law_vm_id_is_spelled_out(stack: StackKeyView, seed: u64)
    ensures
        spells(vm_id(stack, seed), stack, seed),
{
    reveal_strlit("warm-");
    reveal_strlit("-");
    lemma_decimal_writes(seed as nat);
    law_sanitized_is_underscored(stack.stack_name);
    law_sanitized_is_underscored(stack.version);
    assert("warm-"@ =~= seq!['w', 'a', 'r', 'm', '-']);
    assert("-"@ =~= seq!['-']);
    let digits = decimal(seed as nat);
    assert(writes(digits, seed as int));
}

} // verus!
