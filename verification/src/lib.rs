//! An incremental parser for the Test Anything Protocol (TAP), version 14.
//!
//! The line grammar lives in [`parsing`]: each rule inspects a prefix of a
//! string and reports a three-way outcome — a parsed value together with the
//! number of characters consumed, an "incomplete" signal meaning more input is
//! needed before a decision can be made, or a definite mismatch.  The
//! incremental engine in [`stream`] owns a growing text buffer, retries the
//! grammar as bytes arrive, and yields one test-point record per successful
//! parse, evicting exactly the consumed prefix.

use vstd::prelude::*;

pub mod laws;
pub mod parsing;
pub mod stream;

verus! {

/// One reported test outcome: a pass/fail status with optional metadata.
///
/// Every field other than `status` mirrors exactly what was present in the
/// input line: an absent field in the line is `None` in the record.
#[derive(Debug, PartialEq, Eq, Clone, Hash)]
pub struct TestPoint {
    pub status: bool,
    pub test_number: Option<usize>,
    pub description: Option<String>,
    pub directive: Option<TestDirective>,
    pub yaml: Option<String>,
}

/// A TODO/SKIP annotation on a test point, with an optional reason.
#[derive(Debug, PartialEq, Eq, Clone, Hash)]
pub enum TestDirective {
    Todo(Option<String>),
    Skip(Option<String>),
}

/// A diagnostic comment line.
#[derive(Debug, PartialEq, Eq, Clone, Hash)]
pub struct Comment(pub String);

/// The declared total test count of a `1..N` plan line.
#[derive(Debug, PartialEq, Eq, Clone, Hash)]
pub struct TestPlan(pub usize);

/// An out-of-band abort signal with a free-text reason (empty when absent).
#[derive(Debug, PartialEq, Eq, Clone, Hash)]
pub struct BailOut(pub String);

/// A named boolean switch affecting consumer-side interpretation only.
#[derive(Debug, PartialEq, Eq, Clone, Hash)]
pub enum Pragma {
    Enable(String),
    Disable(String),
}

/// The closed set of line-level variants, unified so a generic consumer can
/// process a stream positionally without knowing which variant comes next.
#[derive(Debug, PartialEq, Eq, Clone, Hash)]
pub enum TestDetails {
    TestPoint(TestPoint),
    BailOut(BailOut),
    TestPlan(TestPlan),
    Pragma(Pragma),
    Comment(String),
    Empty,
    Anything(String),
}

/// Mathematical image of a [`TestDirective`]: text as character sequences.
pub enum TestDirectiveV {
    Todo(Option<Seq<char>>),
    Skip(Option<Seq<char>>),
}

/// Mathematical image of a [`TestPoint`]: text as character sequences.
pub struct TestPointV {
    pub status: bool,
    pub test_number: Option<usize>,
    pub description: Option<Seq<char>>,
    pub directive: Option<TestDirectiveV>,
    pub yaml: Option<Seq<char>>,
}

/// Mathematical image of a [`Pragma`].
pub enum PragmaV {
    Enable(Seq<char>),
    Disable(Seq<char>),
}

/// Mathematical image of a [`TestDetails`] line.
pub enum TestDetailsV {
    TestPoint(TestPointV),
    BailOut(Seq<char>),
    TestPlan(usize),
    Pragma(PragmaV),
    Comment(Seq<char>),
    Empty,
    Anything(Seq<char>),
}

impl DeepView for TestDirective {
    type V = TestDirectiveV;

    open spec fn deep_view(&self) -> TestDirectiveV {
        match self {
            TestDirective::Todo(r) => TestDirectiveV::Todo(r.deep_view()),
            TestDirective::Skip(r) => TestDirectiveV::Skip(r.deep_view()),
        }
    }
}

impl DeepView for TestPoint {
    type V = TestPointV;

    open spec fn deep_view(&self) -> TestPointV {
        TestPointV {
            status: self.status,
            test_number: self.test_number,
            description: self.description.deep_view(),
            directive: self.directive.deep_view(),
            yaml: self.yaml.deep_view(),
        }
    }
}

impl DeepView for Comment {
    type V = Seq<char>;

    open spec fn deep_view(&self) -> Seq<char> {
        self.0.deep_view()
    }
}

impl DeepView for TestPlan {
    type V = usize;

    open spec fn deep_view(&self) -> usize {
        self.0
    }
}

impl DeepView for BailOut {
    type V = Seq<char>;

    open spec fn deep_view(&self) -> Seq<char> {
        self.0.deep_view()
    }
}

impl DeepView for Pragma {
    type V = PragmaV;

    open spec fn deep_view(&self) -> PragmaV {
        match self {
            Pragma::Enable(k) => PragmaV::Enable(k.deep_view()),
            Pragma::Disable(k) => PragmaV::Disable(k.deep_view()),
        }
    }
}

impl DeepView for TestDetails {
    type V = TestDetailsV;

    open spec fn deep_view(&self) -> TestDetailsV {
        match self {
            TestDetails::TestPoint(p) => TestDetailsV::TestPoint(p.deep_view()),
            TestDetails::BailOut(b) => TestDetailsV::BailOut(b.deep_view()),
            TestDetails::TestPlan(p) => TestDetailsV::TestPlan(p.deep_view()),
            TestDetails::Pragma(p) => TestDetailsV::Pragma(p.deep_view()),
            TestDetails::Comment(c) => TestDetailsV::Comment(c.deep_view()),
            TestDetails::Empty => TestDetailsV::Empty,
            TestDetails::Anything(a) => TestDetailsV::Anything(a.deep_view()),
        }
    }
}

} // verus!
