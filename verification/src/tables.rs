//! Moves within a table that the tables of the engine share.
use vstd::prelude::*;

verus! {

/// One element to read and another to write, out of one pool.
///
/// A filter never reads and writes the same note buffer: one that drops
/// anything has a buffer of its own to write to.
pub fn index_two<T>(pool: &mut [T], a: usize, b: usize) -> (r: (&T, &mut T))
    requires
        a != b,
        a < old(pool)@.len(),
        b < old(pool)@.len(),
    ensures
        *r.0 == old(pool)@[a as int],
        *r.1 == old(pool)@[b as int],
        final(pool)@ == old(pool)@.update(b as int, *final(r.1)),
{
    if a < b {
        let (front, back) = pool.split_at_mut(b);
        (&front[a], &mut back[0])
    } else {
        let (front, back) = pool.split_at_mut(a);
        (&back[0], &mut front[b])
    }
}

pub open spec fn swapped<T>(s: Seq<T>, a: int, b: int) -> Seq<T> {
    s.update(a, s[b]).update(b, s[a])
}

/// Exchanges two elements by moving them.
pub fn swap_two<T>(pool: &mut [T], a: usize, b: usize)
    requires
        a < old(pool)@.len(),
        b < old(pool)@.len(),
    ensures
        final(pool)@ == swapped(old(pool)@, a as int, b as int),
{
    if a < b {
        let (front, back) = pool.split_at_mut(b);
        std::mem::swap(&mut front[a], &mut back[0]);
    } else if b < a {
        let (front, back) = pool.split_at_mut(a);
        std::mem::swap(&mut front[b], &mut back[0]);
    }
}

/// The value a table first gives a socket from `at` on.
pub open spec fn lookup_from<V>(table: Seq<((u32, u8), V)>, key: (u32, u8), at: int) -> Option<V>
    decreases table.len() - at,
{
    if at >= table.len() {
        None
    } else if table[at].0 == key {
        Some(table[at].1)
    } else {
        lookup_from(table, key, at + 1)
    }
}

/// The value a table gives a socket.
pub open spec fn lookup<V>(table: Seq<((u32, u8), V)>, key: (u32, u8)) -> Option<V> {
    lookup_from(table, key, 0)
}

pub proof fn lemma_lookup_from<V>(table: Seq<((u32, u8), V)>, key: (u32, u8), at: int)
    requires
        0 <= at,
    ensures
        match lookup_from(table, key, at) {
            Some(value) => exists|i: int|
                at <= i < table.len() && #[trigger] table[i] == (key, value),
            None => forall|i: int| at <= i < table.len() ==> (#[trigger] table[i]).0 != key,
        },
    decreases table.len() - at,
{
    if at < table.len() {
        if table[at].0 == key {
            assert(table[at] == (key, table[at].1));
        } else {
            lemma_lookup_from(table, key, at + 1);
        }
    }
}

pub fn find_key<V: Copy>(table: &Vec<((u32, u8), V)>, key: (u32, u8)) -> (r: Option<V>)
    ensures
        r == lookup(table@, key),
{
    let mut at: usize = 0;
    while at < table.len()
        invariant
            at <= table@.len(),
            lookup(table@, key) == lookup_from(table@, key, at as int),
        decreases table@.len() - at,
    {
        let (socket, value) = table[at];
        if socket.0 == key.0 && socket.1 == key.1 {
            return Some(value);
        }
        at += 1;
    }
    None
}

} // verus!
