//! Periodic-boundary index arithmetic for the cubic lattices the
//! simulations walk: wrap-around steps along one axis and the six
//! nearest neighbors of a cell.

use vstd::prelude::*;
use crate::errors::KernelError;

verus! {

/// One step forward along an axis of length `size`, wrapping at the
/// boundary.
pub fn wrap_next(i: usize, size: usize) -> (r: Result<usize, KernelError>)
    ensures
        i < size ==> (r matches Ok(v) && v as int == (i + 1) % (size as int)),
        i >= size <==> (r matches Err(e) && e == KernelError::IndexOutOfRange),
{
    if i >= size {
        return Err(KernelError::IndexOutOfRange);
    }
    if i + 1 == size {
        proof {
            vstd::arithmetic::div_mod::lemma_mod_self_0(size as int);
        }
        Ok(0)
    } else {
        proof {
            vstd::arithmetic::div_mod::lemma_small_mod((i + 1) as nat, size as nat);
        }
        Ok(i + 1)
    }
}

/// One step backward along an axis of length `size`, wrapping at the
/// boundary: (i + size - 1) % size.
pub fn wrap_prev(i: usize, size: usize) -> (r: Result<usize, KernelError>)
    ensures
        i < size ==> (r matches Ok(v) && v as int == (i + size - 1) % (size as int)),
        i >= size <==> (r matches Err(e) && e == KernelError::IndexOutOfRange),
{
    if i >= size {
        return Err(KernelError::IndexOutOfRange);
    }
    if i == 0 {
        proof {
            vstd::arithmetic::div_mod::lemma_small_mod((size - 1) as nat, size as nat);
        }
        Ok(size - 1)
    } else {
        proof {
            vstd::arithmetic::div_mod::lemma_mod_add_multiples_vanish(
                i as int - 1, size as int);
            vstd::arithmetic::div_mod::lemma_small_mod((i - 1) as nat, size as nat);
        }
        Ok(i - 1)
    }
}

/// The six nearest neighbors of the cell (x, y, z) on a cubic lattice
/// with periodic boundaries, in the order: x-, x+, y-, y+, z-, z+.
pub fn periodic_neighbors(size: usize, x: usize, y: usize, z: usize)
    -> (r: Result<Vec<(usize, usize, usize)>, KernelError>)
    ensures
        x < size && y < size && z < size ==> (r matches Ok(v)
            && v@.len() == 6
            && v@[0] == (((x + size - 1) % (size as int)) as usize, y, z)
            && v@[1] == (((x + 1) % (size as int)) as usize, y, z)
            && v@[2] == (x, ((y + size - 1) % (size as int)) as usize, z)
            && v@[3] == (x, ((y + 1) % (size as int)) as usize, z)
            && v@[4] == (x, y, ((z + size - 1) % (size as int)) as usize)
            && v@[5] == (x, y, ((z + 1) % (size as int)) as usize)),
        !(x < size && y < size && z < size)
            <==> (r matches Err(e) && e == KernelError::IndexOutOfRange),
{
    if x >= size || y >= size || z >= size {
        return Err(KernelError::IndexOutOfRange);
    }
    let xm = match wrap_prev(x, size) {
        Ok(v) => v,
        Err(e) => { return Err(e); },
    };
    let xp = match wrap_next(x, size) {
        Ok(v) => v,
        Err(e) => { return Err(e); },
    };
    let ym = match wrap_prev(y, size) {
        Ok(v) => v,
        Err(e) => { return Err(e); },
    };
    let yp = match wrap_next(y, size) {
        Ok(v) => v,
        Err(e) => { return Err(e); },
    };
    let zm = match wrap_prev(z, size) {
        Ok(v) => v,
        Err(e) => { return Err(e); },
    };
    let zp = match wrap_next(z, size) {
        Ok(v) => v,
        Err(e) => { return Err(e); },
    };
    let mut out: Vec<(usize, usize, usize)> = Vec::new();
    out.push((xm, y, z));
    out.push((xp, y, z));
    out.push((x, ym, z));
    out.push((x, yp, z));
    out.push((x, y, zm));
    out.push((x, y, zp));
    Ok(out)
}

} // verus!
