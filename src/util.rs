use vstd::prelude::*;
use vstd::string::StringExecFns;
use crate::config::{first_missing, values_of, write_result};
use crate::store::{uninit_err, SimError, Store};

verus! {

pub open spec fn digits() -> Seq<char> {
    seq!['0', '1', '2', '3', '4', '5', '6', '7', '8', '9']
}

/// The decimal numeral of `n`.
pub open spec fn decimal(n: nat) -> Seq<char>
    decreases n,
{
    if n < 10 {
        seq![digits()[n as int]]
    } else {
        decimal(n / 10).push(digits()[(n % 10) as int])
    }
}

/// The name of bit `n` of signal `var`: `var[n]`.
pub open spec fn indexed_name(var: Seq<char>, n: nat) -> Seq<char> {
    var.push('[') + decimal(n).push(']')
}

/// The names of bits `n` up to `m` (excluded) of signal `var`.
pub open spec fn range_names(var: Seq<char>, n: nat, m: nat) -> Seq<Seq<char>> {
    Seq::new((if m > n { m - n } else { 0 }) as nat, |i: int| indexed_name(var, (n + i) as nat))
}

/// The store after writing `vals[i]` to `names[i]` for each `i` in turn.
pub open spec fn writes(m: Map<Seq<char>, u8>, names: Seq<Seq<char>>, vals: Seq<u8>) -> Map<
    Seq<char>,
    u8,
>
    decreases names.len(),
{
    if names.len() == 0 {
        m
    } else {
        writes(m, names.drop_last(), vals).insert(names.last(), vals[names.len() - 1])
    }
}

fn decimal_string(n: usize) -> (r: String)
    ensures
        r@ == decimal(n as nat),
    decreases n,
{
    let ds = "0123456789";
    proof {
        reveal_strlit("0123456789");
    }
    assert(ds@ =~= digits());
    if n < 10 {
        ds.substring_char(n, n + 1).to_owned()
    } else {
        let d = n % 10;
        let head = decimal_string(n / 10);
        let r = head.concat(ds.substring_char(d, d + 1));
        assert(r@ =~= decimal(n as nat));
        r
    }
}

fn name_of(var: &str, n: usize) -> (r: String)
    ensures
        r@ == indexed_name(var@, n as nat),
{
    proof {
        reveal_strlit("[");
        reveal_strlit("]");
    }
    let r = var.to_owned().concat("[").concat(decimal_string(n).as_str()).concat("]");
    assert(r@ =~= indexed_name(var@, n as nat));
    r
}

/// The values of bits `n` up to `m` (excluded) of signal `var`.
pub fn get_n_to_m(var: &str, n: usize, m: usize, store: &Store) -> (r: Result<Vec<u8>, SimError>)
    ensures
        ({
            let names = range_names(var@, n as nat, m as nat);
            match first_missing(names, store@) {
                Some(i) => uninit_err(r, names[i]),
                None => r matches Ok(v) && v@ == values_of(names, store@),
            }
        }),
{
    let ghost names = range_names(var@, n as nat, m as nat);
    let mut out: Vec<u8> = Vec::new();
    let mut b: usize = n;
    while b < m
        invariant
            names == range_names(var@, n as nat, m as nat),
            n <= b,
            b < m ==> b - n <= names.len(),
            n < m ==> b <= m,
            m <= n ==> b == n,
            forall|j: int| 0 <= j < b - n ==> store@.contains_key(names[j]),
            out@ == values_of(names.take(b - n), store@),
        decreases m - b,
    {
        let name = name_of(var, b);
        assert(name@ == names[b - n]);
        match store.get(name.as_str()) {
            Some(x) => {
                out.push(x);
            },
            None => {
                proof {
                    let f = first_missing(names, store@)->0;
                    if f < b - n {
                        assert(false);
                    }
                    if f > b - n {
                        assert(false);
                    }
                }
                return Err(SimError::UninitializedSignal(name));
            },
        }
        b = b + 1;
        assert(out@ =~= values_of(names.take(b - n), store@));
    }
    assert(names.take(b - n) =~= names);
    assert(first_missing(names, store@) is None);
    Ok(out)
}

/// Sets signal `var` to `val`.
pub fn set(var: &str, val: u8, store: &mut Store) -> (r: Result<(), SimError>)
    ensures
        write_result(var@, val, old(store)@, final(store)@, r),
{
    store.set(var, val)
}

/// Sets bit `n` of signal `var` to `val`.
pub fn set_n(var: &str, n: usize, val: u8, store: &mut Store) -> (r: Result<(), SimError>)
    ensures
        write_result(indexed_name(var@, n as nat), val, old(store)@, final(store)@, r),
{
    let name = name_of(var, n);
    store.set(name.as_str(), val)
}

/// Sets bits `n` up to `m` (excluded) of signal `var` to the values of `val`
/// in order. When the store lacks one of them nothing is written.
pub fn set_n_to_m(var: &str, n: usize, m: usize, val: Vec<u8>, store: &mut Store) -> (r: Result<
    (),
    SimError,
>)
    requires
        n < m ==> val@.len() >= m - n,
    ensures
        ({
            let names = range_names(var@, n as nat, m as nat);
            match first_missing(names, old(store)@) {
                Some(i) => uninit_err(r, names[i]) && final(store)@ == old(store)@,
                None => r is Ok && final(store)@ == writes(old(store)@, names, val@),
            }
        }),
{
    let ghost names = range_names(var@, n as nat, m as nat);
    match get_n_to_m(var, n, m, store) {
        Err(e) => {
            return Err(e);
        },
        Ok(_) => {},
    }
    let mut b: usize = n;
    while b < m
        invariant
            names == range_names(var@, n as nat, m as nat),
            n < m ==> val@.len() >= m - n,
            n <= b,
            b < m ==> b - n <= names.len(),
            n < m ==> b <= m,
            m <= n ==> b == n,
            first_missing(names, old(store)@) is None,
            store@.dom() == old(store)@.dom(),
            store@ == writes(old(store)@, names.take(b - n), val@),
        decreases m - b,
    {
        let name = name_of(var, b);
        proof {
            assert(name@ == names[b - n]);
            let f = first_missing(names, old(store)@);
            assert(!(exists|i: int| 0 <= i < names.len() && !old(store)@.contains_key(names[i])));
            assert(old(store)@.contains_key(names[b - n]));
            assert(names.take(b - n + 1).drop_last() =~= names.take(b - n));
            assert(names.take(b - n + 1).last() == names[b - n]);
        }
        let _ = store.set(name.as_str(), val[b - n]);
        assert(store@.dom() =~= old(store)@.dom());
        b = b + 1;
    }
    assert(names.take(b - n) =~= names);
    Ok(())
}

/// The 64 bits of `v`, least significant first.
pub fn to_bit_vec(v: u64) -> (r: Vec<u8>)
    ensures
        r@.len() == 64,
        forall|i: int| 0 <= i < 64 ==> r@[i] == ((v >> (i as u64)) & 1) as u8,
{
    let mut bv: Vec<u8> = Vec::new();
    let mut n: u64 = v;
    let mut i: u64 = 0;
    assert(v >> 0u64 == v) by (bit_vector);
    while i < 64
        invariant
            i <= 64,
            bv@.len() == i,
            n == v >> i,
            forall|j: int| 0 <= j < i ==> bv@[j] == ((v >> (j as u64)) & 1) as u8,
        decreases 64 - i,
    {
        bv.push((n & 1) as u8);
        let ghost i1: u64 = (i + 1) as u64;
        assert((v >> i) >> 1u64 == v >> i1) by (bit_vector)
            requires
                i < 64,
                i1 == i + 1,
        ;
        n = n >> 1;
        i = i + 1;
    }
    bv
}

/// The colour of a pixel from its first three bits: opaque, with a full
/// red, green or blue channel for each of them that is 1.
pub fn pixel_color(px: &Vec<u8>) -> (r: u32)
    requires
        px@.len() >= 3,
    ensures
        r == 0xFF00_0000u32 | (if px@[0] == 1 {
            0xFFu32
        } else {
            0u32
        }) | (if px@[1] == 1 {
            0xFF00u32
        } else {
            0u32
        }) | (if px@[2] == 1 {
            0xFF_0000u32
        } else {
            0u32
        }),
{
    let red: u32 = if px[0] == 1 {
        0xFF
    } else {
        0
    };
    let green: u32 = if px[1] == 1 {
        0xFF00
    } else {
        0
    };
    let blue: u32 = if px[2] == 1 {
        0xFF_0000
    } else {
        0
    };
    0xFF00_0000u32 | red | green | blue
}

} // verus!
