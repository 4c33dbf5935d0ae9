//! The size of a grid a compute pass is dispatched over.

use vstd::prelude::*;

verus! {

/// How many threads a workgroup spans along one axis.
pub const GROUP: u32 = 8;

/// The least number of groups of `size` that hold `count` items.
pub open spec fn groups_covering(count: int, size: int) -> int {
    (count + size - 1) / size
}

/// The size of a grid in cells.
#[derive(Clone, Copy, Debug, PartialEq, Eq, Structural)]
pub struct Extent {
    pub width: u32,
    pub rows: u32,
}

impl Extent {
    /// How many cells the grid has.
    pub fn cells(self) -> (cells: usize)
        requires
            self.width * self.rows <= usize::MAX,
        ensures
            cells == self.width * self.rows,
    {
        assert(self.width <= u32::MAX && self.rows <= u32::MAX);
        self.width as usize * self.rows as usize
    }

    /// How many bytes one 32-bit channel over the grid takes.
    pub fn channel_bytes(self) -> (bytes: u64)
        requires
            self.width * self.rows * 4 <= u64::MAX,
            self.width * self.rows <= usize::MAX,
        ensures
            bytes == self.width * self.rows * 4,
    {
        (self.cells() as u64) * 4
    }

    /// How many workgroups cover the grid along each axis.
    pub fn workgroups(self) -> (groups: (u32, u32))
        ensures
            groups.0 == groups_covering(self.width as int, GROUP as int),
            groups.1 == groups_covering(self.rows as int, GROUP as int),
    {
        (groups_of(self.width, GROUP), groups_of(self.rows, GROUP))
    }
}

/// How many groups of `size` cover `count` cells along one axis.
pub fn groups_of(count: u32, size: u32) -> (groups: u32)
    requires
        0 < size,
    ensures
        groups == groups_covering(count as int, size as int),
{
    let whole: u32 = count / size;
    let left: u32 = count % size;
    proof {
        lemma_groups(count as int, size as int);
    }
    if left == 0 {
        whole
    } else {
        whole + 1
    }
}

/// Rounding up by way of the quotient and what is left over.
pub proof fn lemma_groups(count: int, size: int)
    requires
        0 <= count,
        0 < size,
    ensures
        groups_covering(count, size) == count / size + if count % size == 0 {
            0int
        } else {
            1int
        },
        groups_covering(count, size) * size >= count,
        count > 0 ==> (groups_covering(count, size) - 1) * size < count,
        count % size != 0 ==> count / size < count,
{
    let (whole, left) = (count / size, count % size);
    vstd::arithmetic::div_mod::lemma_fundamental_div_mod(count, size);
    if left == 0 {
        vstd::arithmetic::div_mod::lemma_fundamental_div_mod_converse(count + size - 1, size, whole, size - 1);
    } else {
        assert((whole + 1) * size + (left - 1) == count + size - 1) by (nonlinear_arith)
            requires
                count == size * whole + left,
        ;
        vstd::arithmetic::div_mod::lemma_fundamental_div_mod_converse(count + size - 1, size, whole + 1, left - 1);
    }
    assert(groups_covering(count, size) * size >= count && (count > 0 ==> (groups_covering(count, size) - 1) * size
        < count)) by (nonlinear_arith)
        requires
            count == size * whole + left,
            0 <= left < size,
            groups_covering(count, size) == whole + if left == 0 {
                0int
            } else {
                1int
            },
    ;
    assert(count % size != 0 ==> count / size < count) by (nonlinear_arith)
        requires
            count == size * whole + left,
            0 <= left < size,
            whole == count / size,
            left == count % size,
            0 <= count,
    ;
}

/// The workgroups reach every cell, and no group is spare: one fewer along
/// either axis would leave cells out.
pub proof fn workgroups_cover_the_grid_and_no_more(count: int)
    requires
        count >= 0,
    ensures
        groups_covering(count, GROUP as int) * GROUP >= count,
        count > 0 ==> (groups_covering(count, GROUP as int) - 1) * GROUP < count,
        count == 0 ==> groups_covering(count, GROUP as int) == 0,
{
}

} // verus!
