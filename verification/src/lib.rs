//! Smoothly broken power law (SBPL) fitting of multi-band light curves.
//!
//! A fit is a deterministic particle swarm search with several restarts, each
//! polished by a local minimiser. The modules, from the bottom up:
//!
//! * [`ladder`], [`rounding`], [`binary64`], [`magnitude`], [`closeness`], [`room`],
//!   [`nearest`]: IEEE 754 arithmetic on bit patterns.
//! * [`numbers`], [`text`], [`table`]: constants, texts and comma-separated tables.
//! * [`elementary`], [`generator`]: what the caller supplies - elementary functions
//!   and random numbers.
//! * [`bands`], [`model`], [`brightness`], [`light_curve`], [`photometry`]: filters, the
//!   model, the magnitude scale, observations and where they come from.
//! * [`source`], [`fingerprint`], [`prepare`], [`scaling`], [`cost`], [`agreement`]: a
//!   light curve as a fitting problem.
//! * [`swarm`], [`search`], [`polish`], [`fit`]: fitting one source.
//! * [`side_by_side`], [`independence`], [`batch_fit`]: fitting many sources at once.
//! * [`survey`], [`lineup`], [`device`], [`report`], [`bench`]: from files to batches
//!   and from results to reports.
//!
//! What these do is also told from outside, by laws that relate what goes in to what
//! comes out: [`supplied`] of what the caller supplies, [`reading`] of texts and
//! tables, [`selection`] of prepared sources, [`tally`] of the model and the objective,
//! [`conduct`] of searches and restarts, [`rounds`] of batches, [`outcome`] of
//! polishing and results, and [`accounts`] of benchmarks, devices and reports.

pub mod accounts;
pub mod agreement;
pub mod bands;
pub mod batch_fit;
pub mod bench;
pub mod binary64;
pub mod brightness;
pub mod closeness;
pub mod conduct;
pub mod cost;
pub mod device;
pub mod elementary;
pub mod fingerprint;
pub mod fit;
pub mod generator;
pub mod independence;
pub mod ladder;
pub mod light_curve;
pub mod lineup;
pub mod magnitude;
pub mod model;
pub mod nearest;
pub mod numbers;
pub mod outcome;
pub mod photometry;
pub mod polish;
pub mod prepare;
pub mod reading;
pub mod report;
pub mod room;
pub mod rounding;
pub mod rounds;
pub mod scaling;
pub mod search;
pub mod selection;
pub mod side_by_side;
pub mod source;
pub mod supplied;
pub mod survey;
pub mod swarm;
pub mod table;
pub mod tally;
pub mod text;

pub use bands::{band_frequency_hz, band_wavelength};
pub use binary64::Binary64;
pub use cost::{SbplCost, SbplObs};
pub use elementary::Elementary;
pub use fit::{assemble_result, fit_prepared, fit_sbpl};
pub use generator::Draw;
pub use light_curve::{obs_to_band_map, BandData, BandMap, Obs};
pub use model::{eval_sbpl, mag_to_flux, sbpl_model};
pub use numbers::N_PARAMS;
pub use photometry::load_csv;
pub use polish::lbfgs_refine;
pub use prepare::prepare_source;
pub use report::PARAM_NAMES;
pub use source::{Preparation, PreparedSource, PsoConfig, SbplResult};
pub use survey::{fit_sbpl_csv, try_fit_sbpl_csv};
