//! The central-difference gradient of a sequence, in exact integer
//! arithmetic.

use vstd::prelude::*;

verus! {

/// Twice the gradient of `s`: inside the sequence the difference of the two
/// neighbours, at both ends twice the difference to the one neighbour, and
/// zero for a single item.
pub open spec fn doubled_gradient(s: Seq<int>) -> Seq<int> {
    Seq::new(
        s.len(),
        |i: int|
            if s.len() == 1 {
                0
            } else if i == 0 {
                2 * (s[1] - s[0])
            } else if i == s.len() - 1 {
                2 * (s[i] - s[i - 1])
            } else {
                s[i + 1] - s[i - 1]
            },
    )
}

/// Appends twice the gradient of `input` to `output`.
///
/// The gradient itself is half of what is written: `(f[i + 1] - f[i - 1]) / 2`
/// inside the sequence, `f[1] - f[0]` and `f[n - 1] - f[n - 2]` at its ends.
/// Doubled, it stays an integer.
pub fn gradient(input: &[u64], output: &mut Vec<i128>)
    ensures
        final(output)@.len() == old(output)@.len() + input@.len(),
        forall|i: int| 0 <= i < old(output)@.len() ==> final(output)@[i] == old(output)@[i],
        forall|i: int|
            0 <= i < input@.len() ==> #[trigger] final(output)@[old(output)@.len() + i]
                == doubled_gradient(Seq::new(input@.len(), |k: int| input@[k] as int))[i],
{
    let n: usize = input.len();
    let ghost s = Seq::new(input@.len(), |k: int| input@[k] as int);
    let ghost before = output@;
    if n == 0 {
        return ;
    }
    if n == 1 {
        output.push(0);
        return ;
    }
    let mut f0: u64 = input[0];
    let mut f1: u64 = input[1];
    output.push(2 * (f1 as i128 - f0 as i128));
    if n == 2 {
        output.push(2 * (f1 as i128 - f0 as i128));
        return ;
    }
    let mut f2: u64 = input[2];
    output.push(f2 as i128 - f0 as i128);
    let mut i: usize = 3;
    while i < n
        invariant
            3 <= i <= n,
            n == input@.len(),
            s == Seq::new(input@.len(), |k: int| input@[k] as int),
            f1 == input@[i - 2],
            f2 == input@[i - 1],
            output@.len() == before.len() + i - 1,
            forall|k: int| 0 <= k < before.len() ==> output@[k] == before[k],
            forall|k: int|
                0 <= k < i - 1 ==> #[trigger] output@[before.len() + k] == doubled_gradient(s)[k],
        decreases n - i,
    {
        f0 = f1;
        f1 = f2;
        f2 = input[i];
        output.push(f2 as i128 - f0 as i128);
        i += 1;
    }
    output.push(2 * (f2 as i128 - f1 as i128));
}

} // verus!
