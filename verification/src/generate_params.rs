//! The round constants of a Rescue permutation over the field, drawn from
//! the SHAKE256 output on a seed that names the permutation's parameters.

use crate::field_element::encoding::{le_capacity, le_value, lemma_le_bytes_of_le_value};
use crate::field_element::{reduce, reduce_spec, FieldElement, PRIME};
use sha3::digest::{ExtendableOutput, Update};
use sha3::Shake256;
use vstd::arithmetic::div_mod::{
    lemma_fundamental_div_mod, lemma_fundamental_div_mod_converse, lemma_mod_bound,
};
use vstd::prelude::*;

verus! {

/// The number of bytes from which one constant is drawn: one more than the
/// modulus takes.
pub const BYTES_PER_FIELD: usize = 9;

/// The first `len` bytes of the SHAKE256 output on `input`.
pub uninterp spec fn shake256_output(input: Seq<u8>, len: nat) -> Seq<u8>;

/// Calls `sha3::Shake256`: absorbs `input` with `Update::update` and squeezes
/// `num_bytes` bytes with `ExtendableOutput::finalize_boxed`, which allocates
/// them at once, so that there may be no more than an allocation can hold.
/// The result is the named SHAKE256 output, and holds as many bytes as were
/// asked for.
#[verifier::external_body]
fn shake256(input: &[u8], num_bytes: usize) -> (r: Box<[u8]>)
    requires
        num_bytes <= isize::MAX,
    ensures
        r@ == shake256_output(input@, num_bytes as nat),
        r.len() == num_bytes,
{
    let mut hasher = Shake256::default();
    hasher.update(input);
    hasher.finalize_boxed(num_bytes)
}

/// The decimal digits of `n` in ASCII, most significant first.
pub open spec fn decimal(n: nat) -> Seq<u8>
    decreases n,
{
    if n < 10 {
        seq![('0' as u8 + n) as u8]
    } else {
        decimal(n / 10).push(('0' as u8 + n % 10) as u8)
    }
}

/// The bytes of `Rescue - XLIX (`, with which every seed begins.
pub open spec fn seed_prefix() -> Seq<u8> {
    seq![
        'R' as u8,
        'e' as u8,
        's' as u8,
        'c' as u8,
        'u' as u8,
        'e' as u8,
        ' ' as u8,
        '-' as u8,
        ' ' as u8,
        'X' as u8,
        'L' as u8,
        'I' as u8,
        'X' as u8,
        ' ' as u8,
        '(' as u8,
    ]
}

/// The seed for a permutation of the given width, capacity and security
/// level: the prefix, then the modulus, the width, the capacity and the
/// security level in decimal, with a comma between them. The seed ends with
/// the last digit: nothing closes the bracket that the prefix opens.
pub open spec fn seed(width: nat, capacity: nat, security_level: nat) -> Seq<u8> {
    seed_prefix() + decimal(PRIME as nat) + seq![',' as u8] + decimal(width) + seq![',' as u8]
        + decimal(capacity) + seq![',' as u8] + decimal(security_level)
}

/// The constant drawn from the `index`-th chunk of `bytes`: the chunk's
/// nine bytes, read least significant first, reduced to a field element.
pub open spec fn constant_at(bytes: Seq<u8>, index: int) -> FieldElement {
    let chunk = bytes.subrange(BYTES_PER_FIELD * index, BYTES_PER_FIELD * index + BYTES_PER_FIELD);
    FieldElement::of(reduce_spec(le_value(chunk) as u128))
}

/// The chunk from which the constant of half `h`, round `j` and column `c`
/// is drawn, in tables of `n` rounds and `width` columns.
pub open spec fn chunk_index(h: int, j: int, c: int, n: int, width: int) -> int {
    (h * n + j) * width + c
}

/// Appends the decimal digits of `n` to `out`.
fn push_decimal(out: &mut Vec<u8>, n: u64)
    ensures
        final(out)@ == old(out)@ + decimal(n as nat),
    decreases n,
{
    if n >= 10 {
        push_decimal(out, n / 10);
    }
    out.push('0' as u8 + (n % 10) as u8);
    assert(out@ =~= old(out)@ + decimal(n as nat));
}

/// Builds the seed for a permutation of the given width, capacity and
/// security level.
fn seed_bytes(width: usize, capacity: usize, security_level: usize) -> (r: Vec<u8>)
    ensures
        r@ == seed(width as nat, capacity as nat, security_level as nat),
{
    let prefix: [u8; 15] = [
        'R' as u8,
        'e' as u8,
        's' as u8,
        'c' as u8,
        'u' as u8,
        'e' as u8,
        ' ' as u8,
        '-' as u8,
        ' ' as u8,
        'X' as u8,
        'L' as u8,
        'I' as u8,
        'X' as u8,
        ' ' as u8,
        '(' as u8,
    ];
    let mut out: Vec<u8> = Vec::new();
    let mut i: usize = 0;
    while i < 15
        invariant
            i <= 15,
            out@ == prefix@.subrange(0, i as int),
        decreases 15 - i,
    {
        out.push(prefix[i]);
        i += 1;
        assert(out@ =~= prefix@.subrange(0, i as int));
    }
    assert(out@ =~= seed_prefix());
    push_decimal(&mut out, PRIME);
    out.push(',' as u8);
    push_decimal(&mut out, width as u64);
    out.push(',' as u8);
    push_decimal(&mut out, capacity as u64);
    out.push(',' as u8);
    push_decimal(&mut out, security_level as u64);
    assert(out@ =~= seed(width as nat, capacity as nat, security_level as nat));
    out
}

/// Reads a chunk of nine bytes as an integer, least significant byte first.
fn chunk_value(chunk: &[u8]) -> (r: u128)
    requires
        chunk.len() == BYTES_PER_FIELD,
    ensures
        r == le_value(chunk@),
{
    let mut acc: u128 = 0;
    let mut k: usize = BYTES_PER_FIELD;
    assert(chunk@.subrange(k as int, BYTES_PER_FIELD as int) =~= Seq::<u8>::empty());
    while k > 0
        invariant
            k <= BYTES_PER_FIELD,
            chunk.len() == BYTES_PER_FIELD,
            acc == le_value(chunk@.subrange(k as int, BYTES_PER_FIELD as int)),
        decreases k,
    {
        proof {
            let rest = chunk@.subrange(k as int, BYTES_PER_FIELD as int);
            let more = chunk@.subrange(k - 1, BYTES_PER_FIELD as int);
            assert(more.drop_first() =~= rest);
            lemma_le_bytes_of_le_value(rest);
            reveal_with_fuel(le_capacity, 10);
        }
        k -= 1;
        acc = acc * 256 + chunk[k] as u128;
    }
    assert(chunk@.subrange(0, BYTES_PER_FIELD as int) =~= chunk@);
    acc
}

/// Draws the round constants from `bytes`, which hold one chunk of nine
/// bytes for each constant: the constant of half `h`, round `j` and column
/// `c` comes from the chunk that `chunk_index` gives. Bytes after the last
/// chunk are not read.
pub fn round_constants_from_bytes<const WIDTH: usize, const N: usize>(bytes: &[u8]) -> (table: [
    [[FieldElement; WIDTH]; N]; 2
])
    requires
        bytes.len() >= BYTES_PER_FIELD * (2 * (N * WIDTH)),
    ensures
        forall|h: int, j: int, c: int|
            0 <= h < 2 && 0 <= j < N && 0 <= c < WIDTH ==> #[trigger] table[h][j][c]
                == constant_at(bytes@, chunk_index(h, j, c, N as int, WIDTH as int)),
{
    let mut table = [[[FieldElement::zero(); WIDTH]; N]; 2];
    let total: usize = 2 * (N * WIDTH);
    let mut i: usize = 0;
    while i < total
        invariant
            i <= total,
            total == 2 * (N * WIDTH),
            bytes.len() >= BYTES_PER_FIELD * total,
            forall|h: int, j: int, c: int|
                0 <= h < 2 && 0 <= j < N && 0 <= c < WIDTH && chunk_index(
                    h,
                    j,
                    c,
                    N as int,
                    WIDTH as int,
                ) < i ==> #[trigger] table[h][j][c] == constant_at(
                    bytes@,
                    chunk_index(h, j, c, N as int, WIDTH as int),
                ),
        decreases total - i,
    {
        let chunk: &[u8] = &bytes[i * BYTES_PER_FIELD..(i + 1) * BYTES_PER_FIELD];
        let reduced: u64 = reduce(chunk_value(chunk));
        proof {
            lemma_table_index(i as int, WIDTH as int, N as int);
        }
        let row: usize = i / WIDTH;
        let ghost before = table;
        table[row / N][row % N][i % WIDTH] = FieldElement::new(reduced);
        proof {
            assert forall|h: int, j: int, c: int|
                0 <= h < 2 && 0 <= j < N && 0 <= c < WIDTH && chunk_index(
                    h,
                    j,
                    c,
                    N as int,
                    WIDTH as int,
                ) < i + 1 implies #[trigger] table[h][j][c] == constant_at(
                bytes@,
                chunk_index(h, j, c, N as int, WIDTH as int),
            ) by {
                lemma_chunk_index_unique(h, j, c, N as int, WIDTH as int);
                if chunk_index(h, j, c, N as int, WIDTH as int) < i {
                    assert(table[h][j][c] == before[h][j][c]);
                }
            }
        }
        i += 1;
    }
    proof {
        assert forall|h: int, j: int, c: int|
            0 <= h < 2 && 0 <= j < N && 0 <= c < WIDTH implies #[trigger] chunk_index(
            h,
            j,
            c,
            N as int,
            WIDTH as int,
        ) < total by {
            assert((h * N + j) * WIDTH + c < 2 * (N * WIDTH)) by (nonlinear_arith)
                requires
                    0 <= h < 2 && 0 <= j < N && 0 <= c < WIDTH,
            ;
        }
    }
    table
}

/// Where the constant of chunk `i` goes: with `row = i / width`, the half
/// `row / n`, the round `row % n` and the column `i % width` are in range
/// and lead back to `i`.
proof fn lemma_table_index(i: int, width: int, n: int)
    requires
        0 <= i < 2 * (n * width),
        0 <= width,
        0 <= n,
    ensures
        width > 0,
        n > 0,
        0 <= (i / width) / n < 2,
        0 <= (i / width) % n < n,
        0 <= i % width < width,
        (((i / width) / n) * n + (i / width) % n) * width + i % width == i,
{
    assert(width > 0 && n > 0) by (nonlinear_arith)
        requires
            0 <= i < 2 * (n * width),
            0 <= width,
            0 <= n,
    ;
    let row = i / width;
    lemma_fundamental_div_mod(i, width);
    lemma_fundamental_div_mod(row, n);
    lemma_mod_bound(i, width);
    lemma_mod_bound(row, n);
    assert(0 <= row < 2 * n) by (nonlinear_arith)
        requires
            0 <= i < 2 * (n * width),
            width > 0,
            i == width * row + i % width,
            0 <= i % width < width,
    ;
    assert(0 <= row / n < 2) by (nonlinear_arith)
        requires
            0 <= row < 2 * n,
            n > 0,
            row == n * (row / n) + row % n,
            0 <= row % n < n,
    ;
    assert(((row / n) * n + row % n) * width + i % width == i) by (nonlinear_arith)
        requires
            row == n * (row / n) + row % n,
            i == width * row + i % width,
    ;
}

/// The half, the round and the column can be read back from the chunk's
/// index.
proof fn lemma_chunk_index_unique(h: int, j: int, c: int, n: int, width: int)
    requires
        0 <= h,
        0 <= j < n,
        0 <= c < width,
    ensures
        ({
            let i = chunk_index(h, j, c, n, width);
            &&& (i / width) / n == h
            &&& (i / width) % n == j
            &&& i % width == c
        }),
{
    let i = chunk_index(h, j, c, n, width);
    lemma_fundamental_div_mod_converse(i, width, h * n + j, c);
    lemma_fundamental_div_mod_converse(h * n + j, n, h, j);
}

/// The round constants of the permutation with `WIDTH` columns, of which
/// `RATE` take input, and `N` rounds, at the given security level: two
/// tables of `N` rows, drawn from the SHAKE256 output on the seed for these
/// parameters. `RATE` may not exceed `WIDTH`, and the number of bytes drawn
/// must fit an `isize`, the most that can be allocated.
pub fn compute_round_constants<const RATE: usize, const WIDTH: usize, const N: usize>(
    security_level: usize,
) -> (table: [[[FieldElement; WIDTH]; N]; 2])
    requires
        RATE <= WIDTH,
        BYTES_PER_FIELD * (2 * (N * WIDTH)) <= isize::MAX,
    ensures
        forall|h: int, j: int, c: int|
            0 <= h < 2 && 0 <= j < N && 0 <= c < WIDTH ==> #[trigger] table[h][j][c]
                == constant_at(
                shake256_output(
                    seed(WIDTH as nat, (WIDTH - RATE) as nat, security_level as nat),
                    (BYTES_PER_FIELD * (2 * (N * WIDTH))) as nat,
                ),
                chunk_index(h, j, c, N as int, WIDTH as int),
            ),
{
    let num_bytes: usize = BYTES_PER_FIELD * (2 * (N * WIDTH));
    let capacity: usize = WIDTH - RATE;
    let seed_string: Vec<u8> = seed_bytes(WIDTH, capacity, security_level);
    let byte_string: Box<[u8]> = shake256(seed_string.as_slice(), num_bytes);
    round_constants_from_bytes::<WIDTH, N>(&byte_string)
}

} // verus!
