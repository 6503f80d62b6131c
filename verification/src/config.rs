use vstd::prelude::*;

verus! {

broadcast use vstd::string::axiom_spec_iter, vstd::string::next_postcondition;

/// Selector between the two engine configurations.  Both run the same
/// enumeration; the narrow variant of the original traded coordinate width
/// for memory, which is a capacity choice and not a semantic one.
#[derive(Clone, Copy, Debug, PartialEq, Eq, Structural)]
pub enum Algorithm {
    A32,
    B8,
}

impl Algorithm {
    /// Parse a selector name, matching either case of the letter.
    pub fn parse(s: &str) -> (r: Option<Algorithm>)
        ensures
            r == Some(Algorithm::A32) <==> (s@ == "a32"@ || s@ == "A32"@),
            r == Some(Algorithm::B8) <==> (s@ == "b8"@ || s@ == "B8"@),
    {
        proof {
            reveal_strlit("a32");
            reveal_strlit("A32");
            reveal_strlit("b8");
            reveal_strlit("B8");
        }
        let mut it = s.chars();
        let c0 = it.next();
        let c1 = it.next();
        let c2 = it.next();
        let c3 = it.next();
        match (c0, c1, c2, c3) {
            (Some('a'), Some('3'), Some('2'), None) => {
                proof {
                    assert(s@ =~= "a32"@);
                }
                Some(Algorithm::A32)
            },
            (Some('A'), Some('3'), Some('2'), None) => {
                proof {
                    assert(s@ =~= "A32"@);
                }
                Some(Algorithm::A32)
            },
            (Some('b'), Some('8'), None, None) => {
                proof {
                    assert(s@ =~= "b8"@);
                }
                Some(Algorithm::B8)
            },
            (Some('B'), Some('8'), None, None) => {
                proof {
                    assert(s@ =~= "B8"@);
                }
                Some(Algorithm::B8)
            },
            _ => {
                proof {
                    assert(s@ != "a32"@ && s@ != "A32"@ && s@ != "b8"@ && s@ != "B8"@);
                }
                None
            },
        }
    }

    /// The selector's display name.
    pub fn name(&self) -> (r: &'static str)
        ensures
            self is A32 ==> r@ == "A32"@,
            self is B8 ==> r@ == "B8"@,
    {
        match self {
            Algorithm::A32 => "A32",
            Algorithm::B8 => "B8",
        }
    }
}

impl core::str::FromStr for Algorithm {
    type Err = ();

    fn from_str(s: &str) -> Result<Algorithm, ()> {
        match Algorithm::parse(s) {
            Some(a) => Ok(a),
            None => Err(()),
        }
    }
}

/// Configuration of one enumeration run.
#[derive(Clone, Debug)]
pub struct Poly2d {
    /// Generate polyominoes up to this size.
    pub max_n: usize,
    /// Whether the caller wants the shapes themselves reported.
    pub report_polys: bool,
    /// Engine variant; the wide one is the default.
    pub algorithm: Option<Algorithm>,
}

/// The two things this library can be asked to do.
#[derive(Clone, Debug)]
pub enum Commands {
    /// A random-walk shape of `n` cells; handled by the surrounding program.
    Snake2d { n: usize },
    /// The polyomino enumeration.
    Poly2d(Poly2d),
}

/// A parsed command line.
#[derive(Clone, Debug)]
pub struct Cli {
    pub command: Commands,
}

} // verus!
