//! The usable RAM region, from what the boot loader reported.
use vstd::prelude::*;

verus! {

/// End of the last memory area, or 0 when there is none.
pub open spec fn last_area_end(areas: Seq<(usize, usize)>) -> int {
    if areas.len() == 0 {
        0
    } else {
        areas.last().0 + areas.last().1
    }
}

/// End of the last loaded (allocated) section, or 0 when there is none.
pub open spec fn last_loaded_end(sections: Seq<(bool, usize)>) -> int
    decreases sections.len(),
{
    if sections.len() == 0 {
        0
    } else if sections.last().0 {
        sections.last().1 as int
    } else {
        last_loaded_end(sections.drop_last())
    }
}

/// The RAM the frame allocator may use, as (base, length): it starts past
/// the last loaded kernel section and past the boot information, and ends
/// where the last memory area ends. `areas` holds (base, length) of each
/// memory area, `sections` holds (loaded, end) of each kernel section.
/// `None` when the end lies below the start or does not fit a `usize`.
pub fn memory_region(areas: &Vec<(usize, usize)>, sections: &Vec<(bool, usize)>, boot_end: usize) -> (r: Option<
    (usize, usize),
>)
    ensures
        ({
            let lower = if boot_end > last_loaded_end(sections@) {
                boot_end as int
            } else {
                last_loaded_end(sections@)
            };
            let upper = last_area_end(areas@);
            match r {
                Some((base, len)) => base == lower && len == upper - lower,
                None => upper < lower || upper > usize::MAX,
            }
        }),
{
    let mut mem_upper_bd: usize = 0;
    if areas.len() > 0 {
        let (base, length) = areas[areas.len() - 1];
        mem_upper_bd = match base.checked_add(length) {
            Some(e) => e,
            None => {
                return None;
            },
        };
    }
    let mut mem_lower_bd: usize = 0;
    let mut found: bool = false;
    let mut k: usize = sections.len();
    assert(sections@.take(k as int) =~= sections@);
    while k > 0 && !found
        invariant
            k <= sections@.len(),
            !found ==> last_loaded_end(sections@) == last_loaded_end(sections@.take(k as int)) && mem_lower_bd == 0,
            found ==> last_loaded_end(sections@) == mem_lower_bd,
        decreases k,
    {
        k -= 1;
        assert(sections@.take(k as int + 1).drop_last() =~= sections@.take(k as int));
        assert(sections@.take(k as int + 1).last() == sections@[k as int]);
        let (loaded, end) = sections[k];
        if loaded {
            mem_lower_bd = end;
            found = true;
        }
    }
    if !found {
        assert(sections@.take(0) =~= Seq::<(bool, usize)>::empty());
    }
    let lower = if boot_end > mem_lower_bd {
        boot_end
    } else {
        mem_lower_bd
    };
    if mem_upper_bd < lower {
        return None;
    }
    Some((lower, mem_upper_bd - lower))
}

} // verus!
