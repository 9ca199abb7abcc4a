use vstd::prelude::*;

verus! {

/// Three-valued logic for constraints: `Yes` (holds), `No` (fails) or `Maybe` (undecided).
#[derive(Debug, Clone, Copy, PartialEq, Eq, Structural)]
pub enum YesNoMaybe {
    Yes,
    No,
    Maybe,
}

/// Conjunction of verdicts: `No` absorbs, `Yes` with `Yes` stays `Yes`, anything else is `Maybe`.
pub open spec fn and_spec(a: YesNoMaybe, b: YesNoMaybe) -> YesNoMaybe {
    if a == YesNoMaybe::No || b == YesNoMaybe::No {
        YesNoMaybe::No
    } else if a == YesNoMaybe::Yes && b == YesNoMaybe::Yes {
        YesNoMaybe::Yes
    } else {
        YesNoMaybe::Maybe
    }
}

impl YesNoMaybe {
    pub fn and(&self, other: YesNoMaybe) -> (r: YesNoMaybe)
        ensures
            r == and_spec(*self, other),
    {
        match (*self, other) {
            (YesNoMaybe::No, _) | (_, YesNoMaybe::No) => YesNoMaybe::No,
            (YesNoMaybe::Yes, YesNoMaybe::Yes) => YesNoMaybe::Yes,
            _ => YesNoMaybe::Maybe,
        }
    }

    /// `Yes` for `true`, `No` for `false`.
    pub fn from_bool(b: bool) -> (r: YesNoMaybe)
        ensures
            r == (if b { YesNoMaybe::Yes } else { YesNoMaybe::No }),
    {
        if b {
            YesNoMaybe::Yes
        } else {
            YesNoMaybe::No
        }
    }
}

impl From<bool> for YesNoMaybe {
    fn from(b: bool) -> (r: YesNoMaybe) {
        YesNoMaybe::from_bool(b)
    }
}

impl vstd::std_specs::convert::FromSpecImpl<bool> for YesNoMaybe {
    open spec fn obeys_from_spec() -> bool {
        true
    }

    open spec fn from_spec(b: bool) -> YesNoMaybe {
        if b { YesNoMaybe::Yes } else { YesNoMaybe::No }
    }
}

} // verus!
