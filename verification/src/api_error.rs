//! Error classification at the API boundary.
//!
//! A closed set of error kinds, each mapped to exactly one status code, and a
//! display form that renders the whole cause chain of the underlying failure
//! joined by a fixed separator — the chain would otherwise be lost, since
//! default error formatting prints only the outermost message.

use vstd::prelude::*;

verus! {

/// Which body failed to be read at the API boundary.
#[derive(Clone, Copy, PartialEq, Eq, Structural, Debug)]
pub enum Direction {
    Request,
    Response,
}

/// The closed set of API-boundary error kinds.
///
/// `InvalidBody` is a malformed request or response body: the direction it
/// travelled, the URI it belonged to, and the cause chain of the underlying
/// failure, outermost cause first.
pub enum Error {
    InvalidBody { direction: Direction, uri: String, causes: Vec<String> },
}

/// `parts` joined by `sep`: nothing for no parts, the part alone for one,
/// and a `sep` between every two neighbours otherwise.
pub open spec fn joined(parts: Seq<Seq<char>>, sep: Seq<char>) -> Seq<char>
    decreases parts.len(),
{
    if parts.len() == 0 {
        Seq::empty()
    } else if parts.len() == 1 {
        parts[0]
    } else {
        joined(parts.drop_last(), sep) + sep + parts.last()
    }
}

impl Error {
    /// The cause chain, outermost cause first, as character sequences.
    pub open spec fn causes_seq(self) -> Seq<Seq<char>> {
        match self {
            Error::InvalidBody { causes, .. } => causes@.map_values(|c: String| c@),
        }
    }

    /// The one status code of each kind.
    pub open spec fn spec_status_code(self) -> u16 {
        match self {
            Error::InvalidBody { .. } => 400,
        }
    }

    /// The display form: the cause chain joined by `": "`.
    pub open spec fn spec_format_sources(self) -> Seq<char> {
        joined(self.causes_seq(), ": "@)
    }

    /// Maps the error to its status code; every kind has exactly one, and
    /// `InvalidBody` maps to 400 Bad Request.
    pub fn status_code(&self) -> (code: u16)
        ensures
            code == self.spec_status_code(),
    {
        match self {
            Error::InvalidBody { .. } => 400,
        }
    }

    /// Renders the full cause chain of the underlying failure, outermost
    /// cause first, joined by `": "`.
    pub fn format_sources(&self) -> (out: String)
        ensures
            out@ == self.spec_format_sources(),
    {
        let causes = match self {
            Error::InvalidBody { causes, .. } => causes,
        };
        let ghost views = causes@.map_values(|c: String| c@);
        let mut out = String::new();
        let mut i: usize = 0;
        while i < causes.len()
            invariant
                i <= causes@.len(),
                views == causes@.map_values(|c: String| c@),
                out@ == joined(views.take(i as int), ": "@),
            decreases causes@.len() - i,
        {
            if i > 0 {
                out.append(": ");
            }
            out.append(causes[i].as_str());
            proof {
                assert(views.take(i + 1).drop_last() =~= views.take(i as int));
                assert(views.take(i + 1).last() == views[i as int]);
                if i == 0 {
                    assert(out@ =~= views[0]);
                    assert(views.take(1)[0] == views[0]);
                }
            }
            i += 1;
        }
        proof {
            assert(views.take(views.len() as int) =~= views);
        }
        out
    }
}

/// Error-formatting law: an `InvalidBody` error built from a two-level cause
/// chain renders as the outer cause, the separator, then the inner cause,
/// and maps to status 400 — whatever its URI and direction.
pub proof fn lemma_invalid_body_two_causes(e: Error)
    requires
        e.causes_seq().len() == 2,
    ensures
        e.spec_format_sources() == e.causes_seq()[0] + ": "@ + e.causes_seq()[1],
        e.spec_status_code() == 400,
{
    let cs = e.causes_seq();
    assert(cs.drop_last() =~= seq![cs[0]]);
    assert(joined(seq![cs[0]], ": "@) == seq![cs[0]][0]);
    assert(cs.last() == cs[1]);
}

} // verus!
