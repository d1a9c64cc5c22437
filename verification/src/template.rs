//! The template that `init` installs as `<adr-directory>/.adr-template`.

use vstd::prelude::*;

verus! {

/// The default ADR template. Its header lines carry the placeholders that `new`
/// fills in, in the line structure that `toc` checks.
pub const ADR_TEMPLATE: &'static str = "# ADR`ID` - `TITLE`

* Date: `YYYY-MM-DD`
* Status: `STATUS`
* Author: `AUTHOR`
* Labels: `LABELS`

## Context

What is the issue that motivates this decision?

## Decision

What is the change that is proposed or decided?

## Consequences

What becomes easier or harder because of this change?
";

} // verus!
