//! Rolling-window operators for technical analysis, over series in which a
//! value may be missing.
//!
//! Every operator takes a [`Context`], a result sequence of the length of
//! its inputs, the inputs, and its parameters. A series of several groups is
//! cut into segments of equal length, and each segment is handled by itself.
//!
//! The library holds no floating-point number. It reads a series
//! - as flags, one per position, that say whether the position holds a
//!   number: this is all that a window's shape depends on;
//! - as keys, integers that order the numbers as the numbers are ordered,
//!   where values are compared;
//! - as values of any kind, where they are only moved.
//!
//! What it writes is exact: crossings as `bool`, distances, counts and ranks
//! as integers, extremes as keys. For the operators whose value is a sum, a
//! mean or another reduction of floats it writes the schedule of the
//! reduction: for each position the window to reduce, as places within the
//! segment, and the number of samples in it, or `None` where no value is due.
//! The caller does the arithmetic over the window that is named.

pub mod context;
pub mod cross;
pub mod ema;
pub mod error;
pub mod extremum;
pub mod fret;
pub mod laws;
pub mod ma;
pub mod ordered;
pub mod rank;
pub mod rolling;
pub mod segment;
pub mod series;
pub mod skip_nan_window;
pub mod slope;
pub mod stats;
pub mod stddev;
pub mod sum;

pub use context::Context;
pub use context::FLAG_SKIP_NAN;
pub use context::FLAG_STRICTLY_CYCLE;
pub use cross::ta_cross;
pub use cross::ta_longcross;
pub use cross::ta_rcross;
pub use cross::ta_rlongcross;
pub use ema::ema_impl;
pub use ema::ta_dma;
pub use ema::ta_ema;
pub use ema::ta_lwma;
pub use ema::ta_sma;
pub use ema::EmaCell;
pub use error::Error;
pub use extremum::ta_hhv;
pub use extremum::ta_hhvbars;
pub use extremum::ta_llv;
pub use extremum::ta_llvbars;
pub use fret::ta_fret;
pub use fret::Trade;
pub use ma::ta_ma;
pub use ma::ta_product;
pub use ordered::OrderedFloat;
pub use rank::ta_rank;
pub use rank::ta_ts_rank;
pub use rank::Ratio;
pub use rolling::window_steps;
pub use series::ta_barslast;
pub use series::ta_barssince;
pub use series::ta_count;
pub use series::ta_ref;
pub use skip_nan_window::Item;
pub use skip_nan_window::SkipNanWindow;
pub use slope::ta_intercept;
pub use slope::ta_slope;
pub use slope::ta_ts_correlation;
pub use stats::ta_corr;
pub use stats::ta_cov;
pub use stats::ta_var;
pub use stddev::ta_stddev;
pub use sum::ta_sum;
pub use sum::ta_sumif;
