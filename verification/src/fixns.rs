//! The runtime error of a script, and the page check of the `fix::`
//! operations.

use vstd::prelude::*;
use crate::fmt::{i64_text, push_i64};
use crate::text::push_str;

verus! {

/// An error while running a script.
#[derive(Debug)]
pub struct RuntimeError {
    pub message: String,
}

impl RuntimeError {
    /// `runtime error: <message>`, as the error is shown.
    pub fn to_string(&self) -> (r: String)
        ensures
            r@ == "runtime error: "@ + self.message@,
    {
        let mut out: Vec<char> = Vec::new();
        push_str(&mut out, "runtime error: ");
        push_str(&mut out, self.message.as_str());
        crate::text::string_of(&out)
    }
}

/// The message when a `fix::` operation names a page the document lacks.
pub open spec fn page_error_text(page: i64, page_count: i64, name: Seq<char>) -> Seq<char> {
    "fix::"@ + name + ": page "@ + i64_text(page) + " does not exist (the PDF has "@ + i64_text(
        page_count,
    ) + ")"@
}

/// A page number of a `fix::` operation is between 1 and the page count.
pub fn check_page(page: i64, page_count: i64, name: &str) -> (r: Result<(), RuntimeError>)
    ensures
        r is Ok <==> 1 <= page <= page_count,
        r is Err ==> r->Err_0.message@ == page_error_text(page, page_count, name@),
{
    if page < 1 || page > page_count {
        let mut out: Vec<char> = Vec::new();
        push_str(&mut out, "fix::");
        push_str(&mut out, name);
        push_str(&mut out, ": page ");
        push_i64(&mut out, page);
        push_str(&mut out, " does not exist (the PDF has ");
        push_i64(&mut out, page_count);
        push_str(&mut out, ")");
        assert(out@ =~= page_error_text(page, page_count, name@));
        Err(RuntimeError { message: crate::text::string_of(&out) })
    } else {
        Ok(())
    }
}

/// `order` names each page from 1 to `n` exactly once.
pub open spec fn is_page_order(order: Seq<i64>, n: int) -> bool {
    &&& order.len() == n
    &&& forall|k: int| 0 <= k < order.len() ==> 1 <= #[trigger] order[k] <= n
    &&& forall|k: int, l: int| 0 <= k < l < order.len() ==> #[trigger] order[k] != #[trigger] order[l]
}

/// The mark of page `p`.
pub open spec fn page_seen(seen: Seq<bool>, p: int) -> bool {
    seen[p - 1]
}

/// Whether `order` is a new order for a document of `page_count` pages:
/// each page from 1 to `page_count` exactly once.
pub fn page_order_valid(order: &Vec<i64>, page_count: i64) -> (r: bool)
    ensures
        r == is_page_order(order@, page_count as int),
{
    if page_count < 0 || order.len() as u64 != page_count as u64 {
        return false;
    }
    let n = order.len();
    let mut seen: Vec<bool> = Vec::new();
    let mut z: usize = 0;
    while z < n
        invariant
            z <= n,
            seen@.len() == z,
            forall|k: int| 0 <= k < z ==> !seen@[k],
        decreases n - z,
    {
        seen.push(false);
        z = z + 1;
    }
    let mut i: usize = 0;
    while i < n
        invariant
            n == order@.len(),
            n == page_count,
            i <= n,
            seen@.len() == n,
            forall|k: int| 0 <= k < i ==> 1 <= #[trigger] order@[k] <= n,
            forall|k: int, l: int| 0 <= k < l < i ==> #[trigger] order@[k] != #[trigger] order@[l],
            forall|p: int| 1 <= p <= n ==> (#[trigger] page_seen(seen@, p) <==> exists|k: int| 0 <= k < i && #[trigger] order@[k] == p),
        decreases n - i,
    {
        let v = order[i];
        if v < 1 || v > page_count {
            return false;
        }
        let slot = (v - 1) as usize;
        if seen[slot] {
            proof {
                assert(page_seen(seen@, v as int));
                let k = choose|k: int| 0 <= k < i && #[trigger] order@[k] == v;
                assert(order@[k] == order@[i as int]);
            }
            return false;
        }
        let ghost old_seen = seen@;
        seen.set(slot, true);
        proof {
            assert(seen@ == old_seen.update(v - 1, true));
            assert forall|p: int| 1 <= p <= n implies (#[trigger] page_seen(seen@, p) <==> exists|k: int| 0 <= k < i + 1 && #[trigger] order@[k] == p) by {
                if p == v {
                    assert(order@[i as int] == p);
                    assert(page_seen(seen@, p));
                } else {
                    assert(page_seen(seen@, p) == page_seen(old_seen, p));
                    if exists|k: int| 0 <= k < i + 1 && #[trigger] order@[k] == p {
                        let k = choose|k: int| 0 <= k < i + 1 && #[trigger] order@[k] == p;
                        assert(k != i);
                        assert(exists|k2: int| 0 <= k2 < i && #[trigger] order@[k2] == p);
                    }
                }
            }
            assert forall|k: int, l: int| 0 <= k < l < i + 1 implies #[trigger] order@[k] != #[trigger] order@[l] by {
                if l == i {
                    if order@[k] == order@[l] {
                        assert(exists|k2: int| 0 <= k2 < i && #[trigger] order@[k2] == v);
                        assert(page_seen(old_seen, v as int));
                    }
                }
            }
        }
        i = i + 1;
    }
    true
}

/// The error of a `fix::` operation: `fix::<name>: <detail>`.
pub open spec fn fix_error(name: Seq<char>, detail: Seq<char>) -> Seq<char> {
    "fix::"@ + name + ": "@ + detail
}

/// The outcome of checking a rotation by `degrees` of page `page` (`0` for
/// every page) in a document of `page_count` pages: the angle must be a
/// quarter, half or three-quarter turn, and a single page must exist.
pub open spec fn rotation_verdict(page: i64, degrees: i64, page_count: i64, name: Seq<char>) -> Result<(), Seq<char>> {
    if !(degrees == 90 || degrees == 180 || degrees == 270) {
        Err(fix_error(name, "rotation must be 90, 180 or 270 (got "@ + i64_text(degrees) + ")"@))
    } else if page != 0 && !(1 <= page <= page_count) {
        Err(page_error_text(page, page_count, name))
    } else {
        Ok(())
    }
}

/// The outcome of checking the removal of page `page`: it must exist and
/// not be the only one.
pub open spec fn deletion_verdict(page: i64, page_count: i64, name: Seq<char>) -> Result<(), Seq<char>> {
    if !(1 <= page <= page_count) {
        Err(page_error_text(page, page_count, name))
    } else if page_count == 1 {
        Err(fix_error(name, "cannot remove the only page of the PDF"@))
    } else {
        Ok(())
    }
}

/// The outcome of checking the page range `from..=to` saved to another
/// file: both ends must exist, in order.
pub open spec fn split_verdict(from: i64, to: i64, page_count: i64, name: Seq<char>) -> Result<(), Seq<char>> {
    if !(1 <= from <= page_count) {
        Err(page_error_text(from, page_count, name))
    } else if !(1 <= to <= page_count) {
        Err(page_error_text(to, page_count, name))
    } else if to < from {
        Err(fix_error(name, "invalid range ("@ + i64_text(from) + " to "@ + i64_text(to) + ")"@))
    } else {
        Ok(())
    }
}

/// The outcome as a result with the error's message.
pub open spec fn verdict_of(r: Result<(), RuntimeError>) -> Result<(), Seq<char>> {
    match r {
        Ok(_) => Ok(()),
        Err(e) => Err(e.message@),
    }
}

/// Checks `fix::rotate_page` on the whole-number arguments it was given.
pub fn check_rotation(page: i64, degrees: i64, page_count: i64, name: &str) -> (r: Result<(), RuntimeError>)
    ensures
        verdict_of(r) == rotation_verdict(page, degrees, page_count, name@),
{
    if !(degrees == 90 || degrees == 180 || degrees == 270) {
        let mut out: Vec<char> = Vec::new();
        push_str(&mut out, "fix::");
        push_str(&mut out, name);
        push_str(&mut out, ": rotation must be 90, 180 or 270 (got ");
        push_i64(&mut out, degrees);
        push_str(&mut out, ")");
        proof {
            reveal_strlit("fix::");
            reveal_strlit(": ");
            reveal_strlit(": rotation must be 90, 180 or 270 (got ");
            reveal_strlit("rotation must be 90, 180 or 270 (got ");
        }
        assert(out@ =~= fix_error(name@, "rotation must be 90, 180 or 270 (got "@ + i64_text(degrees) + ")"@));
        return Err(RuntimeError { message: crate::text::string_of(&out) });
    }
    if page != 0 {
        check_page(page, page_count, name)?;
    }
    Ok(())
}

/// Checks `fix::delete_page` on its page.
pub fn check_deletion(page: i64, page_count: i64, name: &str) -> (r: Result<(), RuntimeError>)
    ensures
        verdict_of(r) == deletion_verdict(page, page_count, name@),
{
    check_page(page, page_count, name)?;
    if page_count == 1 {
        let mut out: Vec<char> = Vec::new();
        push_str(&mut out, "fix::");
        push_str(&mut out, name);
        push_str(&mut out, ": cannot remove the only page of the PDF");
        proof {
            reveal_strlit("fix::");
            reveal_strlit(": ");
            reveal_strlit(": cannot remove the only page of the PDF");
            reveal_strlit("cannot remove the only page of the PDF");
        }
        assert(out@ =~= fix_error(name@, "cannot remove the only page of the PDF"@));
        return Err(RuntimeError { message: crate::text::string_of(&out) });
    }
    Ok(())
}

/// Checks `fix::split_document` on its page range.
pub fn check_split(from: i64, to: i64, page_count: i64, name: &str) -> (r: Result<(), RuntimeError>)
    ensures
        verdict_of(r) == split_verdict(from, to, page_count, name@),
{
    check_page(from, page_count, name)?;
    check_page(to, page_count, name)?;
    if to < from {
        let mut out: Vec<char> = Vec::new();
        push_str(&mut out, "fix::");
        push_str(&mut out, name);
        push_str(&mut out, ": invalid range (");
        push_i64(&mut out, from);
        push_str(&mut out, " to ");
        push_i64(&mut out, to);
        push_str(&mut out, ")");
        proof {
            reveal_strlit("fix::");
            reveal_strlit(": ");
            reveal_strlit(": invalid range (");
            reveal_strlit("invalid range (");
        }
        assert(out@ =~= fix_error(name@, "invalid range ("@ + i64_text(from) + " to "@ + i64_text(to) + ")"@));
        return Err(RuntimeError { message: crate::text::string_of(&out) });
    }
    Ok(())
}

} // verus!
