//! A one-line progress bar for the stages that take long enough to wonder
//! whether anything is happening.
//!
//! The bar is a line of text; whether it is drawn at all (not under
//! `--quiet`, and only when stderr is a terminal) is decided by the caller
//! when the bar is made, and the caller writes the lines that the methods
//! hand back.

use vstd::prelude::*;
use crate::text::{nat_text, push_str, push_usize, string_of};

verus! {

/// The number of cells between the brackets.
pub const WIDTH: usize = 24;

/// `n` copies of `c`.
pub open spec fn repeat(c: char, n: nat) -> Seq<char> {
    Seq::new(n, |i: int| c)
}

/// How many of the cells are filled: in proportion to `done` out of
/// `total`, never more than all of them, and all of them when there was
/// nothing to do.
pub open spec fn filled(done: nat, total: nat) -> nat {
    if total == 0 {
        WIDTH as nat
    } else {
        (WIDTH as nat * (if done < total { done } else { total })) / total
    }
}

/// `s` right-aligned in a field of `w` characters (`{:>w$}`).
pub open spec fn pad_left(s: Seq<char>, w: nat) -> Seq<char> {
    if s.len() < w {
        repeat(' ', (w - s.len()) as nat) + s
    } else {
        s
    }
}

/// The line: the label, the bar between brackets, and the counter padded
/// to the width of the total.
pub open spec fn spec_bar(label: Seq<char>, done: nat, total: nat) -> Seq<char> {
    let f = filled(done, total);
    label + seq![' ', '['] + repeat('#', f) + repeat('-', (WIDTH - f) as nat) + seq![']', ' ']
        + pad_left(nat_text(done), nat_text(total).len()) + seq!['/'] + nat_text(total)
}

/// A number has no more digits than any number at least as large.
pub proof fn lemma_nat_text_len_monotone(a: nat, b: nat)
    requires
        a <= b,
    ensures
        nat_text(a).len() <= nat_text(b).len(),
    decreases b,
{
    if a >= 10 {
        lemma_nat_text_len_monotone(a / 10, b / 10);
    }
    lemma_nat_text_len_positive(b);
}

/// Every number has at least one digit.
pub proof fn lemma_nat_text_len_positive(n: nat)
    ensures
        nat_text(n).len() >= 1,
    decreases n,
{
    if n >= 10 {
        lemma_nat_text_len_positive(n / 10);
    }
}

/// Every line that the bar draws for the same stage is equally wide, so each
/// redraw covers the one before it completely.
pub proof fn lemma_bar_width_is_constant(label: Seq<char>, i: nat, j: nat, total: nat)
    requires
        i <= total,
        j <= total,
    ensures
        spec_bar(label, i, total).len() == spec_bar(label, j, total).len(),
        spec_bar(label, i, total).len() == label.len() + WIDTH + 5 + 2 * nat_text(total).len(),
{
    lemma_bar_len(label, i, total);
    lemma_bar_len(label, j, total);
}

proof fn lemma_bar_len(label: Seq<char>, i: nat, total: nat)
    requires
        i <= total,
    ensures
        spec_bar(label, i, total).len() == label.len() + WIDTH + 5 + 2 * nat_text(total).len(),
{
    lemma_nat_text_len_monotone(i, total);
    lemma_filled_at_most_width(i, total);
}

/// The bar never holds more cells than its width.
pub proof fn lemma_filled_at_most_width(done: nat, total: nat)
    ensures
        filled(done, total) <= WIDTH,
        done >= total ==> filled(done, total) == WIDTH,
{
    if total > 0 {
        let m: nat = if done < total { done } else { total };
        assert((WIDTH as nat * m) / total <= WIDTH as nat) by (nonlinear_arith)
            requires
                m <= total,
                total > 0,
        ;
        if done >= total {
            assert((WIDTH as nat * total) / total == WIDTH as nat) by (nonlinear_arith)
                requires
                    total > 0,
            ;
        }
    }
}

fn push_repeat(dst: &mut Vec<char>, c: char, n: usize)
    ensures
        final(dst)@ == old(dst)@ + repeat(c, n as nat),
{
    let mut i: usize = 0;
    while i < n
        invariant
            i <= n,
            dst@ == old(dst)@ + repeat(c, i as nat),
        decreases n - i,
    {
        dst.push(c);
        i = i + 1;
        assert(dst@ =~= old(dst)@ + repeat(c, i as nat));
    }
}

fn filled_cells(done: usize, total: usize) -> (f: usize)
    ensures
        f == filled(done as nat, total as nat),
        f <= WIDTH,
{
    proof {
        lemma_filled_at_most_width(done as nat, total as nat);
    }
    if total == 0 {
        WIDTH
    } else {
        let m: usize = if done < total { done } else { total };
        let p: u128 = (WIDTH as u128) * (m as u128);
        let f: u128 = p / (total as u128);
        f as usize
    }
}

/// The bar as text: `label [###-----]  d/t`.
pub fn bar(label: &str, done: usize, total: usize) -> (r: String)
    ensures
        r@ == spec_bar(label@, done as nat, total as nat),
{
    let f = filled_cells(done, total);
    let mut out: Vec<char> = Vec::new();
    push_str(&mut out, label);
    out.push(' ');
    out.push('[');
    push_repeat(&mut out, '#', f);
    push_repeat(&mut out, '-', WIDTH - f);
    out.push(']');
    out.push(' ');
    let mut total_digits: Vec<char> = Vec::new();
    push_usize(&mut total_digits, total);
    let mut done_digits: Vec<char> = Vec::new();
    push_usize(&mut done_digits, done);
    if done_digits.len() < total_digits.len() {
        push_repeat(&mut out, ' ', total_digits.len() - done_digits.len());
    }
    crate::text::push_all(&mut out, &done_digits);
    out.push('/');
    crate::text::push_all(&mut out, &total_digits);
    assert(out@ =~= spec_bar(label@, done as nat, total as nat));
    string_of(&out)
}

/// The state of one bar.
pub struct Progress {
    label: String,
    total: usize,
    done: usize,
    /// False when quiet or redirected, which makes every method draw nothing.
    active: bool,
}

impl Progress {
    /// The stage's name.
    pub closed spec fn label_view(&self) -> Seq<char> {
        self.label@
    }

    /// How many units the stage has.
    pub closed spec fn total_count(&self) -> nat {
        self.total as nat
    }

    /// How many units are done.
    pub closed spec fn done_count(&self) -> nat {
        self.done as nat
    }

    /// Whether the bar is drawn.
    pub closed spec fn is_active(&self) -> bool {
        self.active
    }

    /// A bar at zero; `active` says whether it is drawn at all.
    pub fn new(label: String, total: usize, active: bool) -> (p: Progress)
        ensures
            p.label_view() == label@,
            p.total_count() == total,
            p.done_count() == 0,
            p.is_active() == active,
    {
        Progress { label, total, done: 0, active }
    }

    /// The text that redraws the line over the previous one, if the bar is
    /// drawn.
    pub fn draw(&self) -> (r: Option<String>)
        ensures
            self.is_active() ==> r is Some && r->0@ == seq!['\r'] + spec_bar(
                self.label_view(),
                self.done_count(),
                self.total_count(),
            ),
            !self.is_active() ==> r is None,
    {
        if !self.active {
            return None;
        }
        let line = bar(self.label.as_str(), self.done, self.total);
        let mut out: Vec<char> = Vec::new();
        out.push('\r');
        push_str(&mut out, line.as_str());
        Some(string_of(&out))
    }

    /// One more unit done; returns the redrawn line.
    pub fn tick(&mut self) -> (r: Option<String>)
        requires
            old(self).done_count() < usize::MAX,
        ensures
            final(self).done_count() == old(self).done_count() + 1,
            final(self).total_count() == old(self).total_count(),
            final(self).label_view() == old(self).label_view(),
            final(self).is_active() == old(self).is_active(),
            old(self).is_active() ==> r is Some && r->0@ == seq!['\r'] + spec_bar(
                old(self).label_view(),
                old(self).done_count() + 1,
                old(self).total_count(),
            ),
            !old(self).is_active() ==> r is None,
    {
        self.done = self.done + 1;
        self.draw()
    }

    /// Stops drawing and returns the text that blanks the line, so anything
    /// printed afterwards starts on clean ground; nothing once stopped.
    pub fn finish(&mut self) -> (r: Option<String>)
        ensures
            final(self).is_active() == false,
            final(self).done_count() == old(self).done_count(),
            final(self).total_count() == old(self).total_count(),
            final(self).label_view() == old(self).label_view(),
            old(self).is_active() ==> r is Some && r->0@ == seq!['\r'] + repeat(
                ' ',
                spec_bar(
                    old(self).label_view(),
                    old(self).done_count(),
                    old(self).total_count(),
                ).len(),
            ) + seq!['\r'],
            !old(self).is_active() ==> r is None,
    {
        if !self.active {
            return None;
        }
        self.active = false;
        let line = bar(self.label.as_str(), self.done, self.total);
        let width = crate::text::chars_of(line.as_str()).len();
        let mut out: Vec<char> = Vec::new();
        out.push('\r');
        push_repeat(&mut out, ' ', width);
        out.push('\r');
        Some(string_of(&out))
    }
}

} // verus!
