//! The display options of a scan image: how the plane is levelled and how
//! the colour scale is normalised, with the names shown for each.
use vstd::prelude::*;

verus! {

/// How the colour scale spans the data: the full range, or a number of
/// standard deviations around the mean.
#[derive(Clone, Copy, PartialEq, Eq, Structural, Debug)]
pub enum NormType {
    FullScale,
    StdDev,
}

/// How the data is levelled before display.
#[derive(Clone, Copy, PartialEq, Eq, Structural, Debug)]
pub enum FitType {
    MeanSubtract,
    LineMeanSubtract,
    LineFitSubtract,
    PlaneFitSubtract,
}

impl NormType {
    /// The name shown for the normalisation.
    pub fn label(&self) -> (r: &'static str)
        ensures
            r@ == (match *self {
                NormType::FullScale => "Full Scale"@,
                NormType::StdDev => "Std Dev"@,
            }),
    {
        match self {
            NormType::FullScale => "Full Scale",
            NormType::StdDev => "Std Dev",
        }
    }

    /// The normalisations offered, in order.
    pub fn options() -> (r: Vec<NormType>)
        ensures
            r@ == seq![NormType::FullScale, NormType::StdDev],
    {
        let r = vec![NormType::FullScale, NormType::StdDev];
        assert(r@ =~= seq![NormType::FullScale, NormType::StdDev]);
        r
    }

    /// Whether the normalisation takes a number of standard deviations.
    pub fn uses_std_dev(&self) -> (r: bool)
        ensures
            r == (*self == NormType::StdDev),
    {
        match self {
            NormType::FullScale => false,
            NormType::StdDev => true,
        }
    }
}

impl FitType {
    /// The name shown for the levelling.
    pub fn label(&self) -> (r: &'static str)
        ensures
            r@ == (match *self {
                FitType::MeanSubtract => "Raw"@,
                FitType::LineMeanSubtract => "Subtract Average"@,
                FitType::LineFitSubtract => "Subtract Linear Fit"@,
                FitType::PlaneFitSubtract => "Subtract Plane"@,
            }),
    {
        match self {
            FitType::MeanSubtract => "Raw",
            FitType::LineMeanSubtract => "Subtract Average",
            FitType::LineFitSubtract => "Subtract Linear Fit",
            FitType::PlaneFitSubtract => "Subtract Plane",
        }
    }

    /// The levellings offered, in order.
    pub fn options() -> (r: Vec<FitType>)
        ensures
            r@ == seq![
                FitType::MeanSubtract,
                FitType::LineMeanSubtract,
                FitType::LineFitSubtract,
                FitType::PlaneFitSubtract,
            ],
    {
        let r = vec![
            FitType::MeanSubtract,
            FitType::LineMeanSubtract,
            FitType::LineFitSubtract,
            FitType::PlaneFitSubtract,
        ];
        assert(r@ =~= seq![
            FitType::MeanSubtract,
            FitType::LineMeanSubtract,
            FitType::LineFitSubtract,
            FitType::PlaneFitSubtract,
        ]);
        r
    }
}

} // verus!
