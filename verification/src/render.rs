use crate::sat::{Conjunction, Term, TraceDisjunction};
use vstd::prelude::*;

verus! {

/// The character for one decimal digit.
pub open spec fn digit_char(digit: nat) -> char {
    if digit == 0 {
        '0'
    } else if digit == 1 {
        '1'
    } else if digit == 2 {
        '2'
    } else if digit == 3 {
        '3'
    } else if digit == 4 {
        '4'
    } else if digit == 5 {
        '5'
    } else if digit == 6 {
        '6'
    } else if digit == 7 {
        '7'
    } else if digit == 8 {
        '8'
    } else {
        '9'
    }
}

/// A number in decimal, without leading zeros.
pub open spec fn decimal(n: nat) -> Seq<char>
    decreases n,
{
    if n < 10 {
        seq![digit_char(n)]
    } else {
        decimal(n / 10).push(digit_char(n % 10))
    }
}

/// A literal as text: `x` and the position, behind a negation sign where
/// the literal is negated.
pub open spec fn term_text(term: Term) -> Seq<char> {
    if term.negated {
        seq!['\u{AC}', 'x'] + decimal(term.id as nat)
    } else {
        seq!['x'] + decimal(term.id as nat)
    }
}

/// Literals as text, with a conjunction sign between neighbours.
pub open spec fn joined_terms(terms: Seq<Term>) -> Seq<char>
    decreases terms.len(),
{
    if terms.len() == 0 {
        Seq::empty()
    } else if terms.len() == 1 {
        term_text(terms[0])
    } else {
        joined_terms(terms.drop_last()) + seq![' ', '\u{2227}', ' '] + term_text(terms.last())
    }
}

/// A conjunction as text: its literals in round brackets.
pub open spec fn conjunction_text(terms: Seq<Term>) -> Seq<char> {
    seq!['('] + joined_terms(terms) + seq![')']
}

/// Clauses as text, each on a line of its own, with a disjunction sign
/// behind each but the last.
pub open spec fn joined_clauses(clauses: Seq<Conjunction>) -> Seq<char>
    decreases clauses.len(),
{
    if clauses.len() == 0 {
        Seq::empty()
    } else if clauses.len() == 1 {
        conjunction_text(clauses[0]@)
    } else {
        joined_clauses(clauses.drop_last()) + seq![' ', '\u{2228}', '\n', ' ', ' ', ' ', ' ']
            + conjunction_text(clauses.last()@)
    }
}

/// A clause set as text: `[]` where it is empty, and otherwise its clauses
/// between square brackets, indented by four spaces.
pub open spec fn disjunction_text(clauses: Seq<Conjunction>) -> Seq<char> {
    if clauses.len() == 0 {
        seq!['[', ']']
    } else {
        seq!['[', '\n', ' ', ' ', ' ', ' '] + joined_clauses(clauses) + seq!['\n', ']']
    }
}

/// `String::push`: the character is appended behind those that the string
/// holds.
pub assume_specification[ String::push ](text: &mut String, c: char)
    ensures
        final(text)@ == old(text)@.push(c),
;

fn digit_of(digit: u32) -> (c: char)
    requires
        digit < 10,
    ensures
        c == digit_char(digit as nat),
{
    if digit == 0 {
        '0'
    } else if digit == 1 {
        '1'
    } else if digit == 2 {
        '2'
    } else if digit == 3 {
        '3'
    } else if digit == 4 {
        '4'
    } else if digit == 5 {
        '5'
    } else if digit == 6 {
        '6'
    } else if digit == 7 {
        '7'
    } else if digit == 8 {
        '8'
    } else {
        '9'
    }
}

fn push_decimal(out: &mut String, n: u32)
    ensures
        final(out)@ == old(out)@ + decimal(n as nat),
    decreases n,
{
    let ghost before = out@;
    if n >= 10 {
        push_decimal(out, n / 10);
    }
    out.push(digit_of(n % 10));
    proof {
        assert(out@ =~= before + decimal(n as nat));
    }
}

fn push_term(out: &mut String, term: Term)
    ensures
        final(out)@ == old(out)@ + term_text(term),
{
    let ghost before = out@;
    if term.negated {
        out.push('\u{AC}');
    }
    out.push('x');
    push_decimal(out, term.id);
    proof {
        assert(out@ =~= before + term_text(term));
    }
}

fn push_conjunction(out: &mut String, conjunction: &Conjunction)
    ensures
        final(out)@ == old(out)@ + conjunction_text(conjunction@),
{
    let ghost before = out@;
    let terms = conjunction.terms();
    out.push('(');
    let mut i: usize = 0;
    while i < terms.len()
        invariant
            i <= terms@.len(),
            out@ == before + seq!['('] + joined_terms(terms@.take(i as int)),
        decreases terms@.len() - i,
    {
        let ghost held = out@;
        if i > 0 {
            out.push(' ');
            out.push('\u{2227}');
            out.push(' ');
        }
        push_term(out, terms[i]);
        proof {
            let upto = terms@.take(i + 1);
            assert(upto.drop_last() =~= terms@.take(i as int));
            assert(upto.last() == terms@[i as int]);
            if i > 0 {
                assert(out@ =~= held + seq![' ', '\u{2227}', ' '] + term_text(terms@[i as int]));
            }
            assert(out@ =~= before + seq!['('] + joined_terms(upto));
        }
        i += 1;
    }
    out.push(')');
    proof {
        assert(terms@.take(i as int) =~= terms@);
        assert(out@ =~= before + conjunction_text(conjunction@));
    }
}

impl Term {
    /// The literal as text.
    pub fn to_text(&self) -> (text: String)
        ensures
            text@ == term_text(*self),
    {
        let mut out = String::new();
        push_term(&mut out, *self);
        proof {
            assert(out@ =~= term_text(*self));
        }
        out
    }
}

impl Conjunction {
    /// The conjunction as text.
    pub fn to_text(&self) -> (text: String)
        ensures
            text@ == conjunction_text(self@),
    {
        let mut out = String::new();
        push_conjunction(&mut out, self);
        proof {
            assert(out@ =~= conjunction_text(self@));
        }
        out
    }
}

impl TraceDisjunction {
    /// The clause set as text, the clauses in the order in which they are
    /// held.
    pub fn to_text(&self) -> (text: String)
        requires
            self.wf(),
        ensures
            text@ == disjunction_text(self.listing()),
    {
        let clauses = self.clauses();
        let mut out = String::new();
        out.push('[');
        if clauses.len() == 0 {
            out.push(']');
            proof {
                assert(out@ =~= disjunction_text(self.listing()));
            }
            return out;
        }
        out.push('\n');
        out.push(' ');
        out.push(' ');
        out.push(' ');
        out.push(' ');
        let ghost opening = out@;
        let mut i: usize = 0;
        while i < clauses.len()
            invariant
                i <= clauses@.len(),
                opening == seq!['[', '\n', ' ', ' ', ' ', ' '],
                out@ == opening + joined_clauses(clauses@.take(i as int)),
            decreases clauses@.len() - i,
        {
            let ghost held = out@;
            if i > 0 {
                out.push(' ');
                out.push('\u{2228}');
                out.push('\n');
                out.push(' ');
                out.push(' ');
                out.push(' ');
                out.push(' ');
            }
            push_conjunction(&mut out, &clauses[i]);
            proof {
                let upto = clauses@.take(i + 1);
                assert(upto.drop_last() =~= clauses@.take(i as int));
                assert(upto.last() == clauses@[i as int]);
                if i > 0 {
                    assert(out@ =~= held + seq![' ', '\u{2228}', '\n', ' ', ' ', ' ', ' ']
                        + conjunction_text(clauses@[i as int]@));
                }
                assert(out@ =~= opening + joined_clauses(upto));
            }
            i += 1;
        }
        out.push('\n');
        out.push(']');
        proof {
            assert(clauses@.take(i as int) =~= clauses@);
            assert(out@ =~= disjunction_text(self.listing()));
        }
        out
    }
}

} // verus!
