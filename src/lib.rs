//! Small numerical summaries over sequences of numbers: an exact mean, a
//! fixed-width frequency distribution, and a text bar chart.
pub mod binning;
pub mod chart;
pub mod error;
pub mod metrics;

pub use binning::frequency_distribution;
pub use chart::bar_chart;
pub use error::StatsError;
