//! Verified core of a small electronic-design-automation toolkit.

pub mod ad;
pub mod ad_batch;
pub mod ad_parallel;
pub mod algebra;
pub mod arith;
pub mod bignat;
pub mod cache;
pub mod charts;
pub mod complex;
pub mod convert;
pub mod corner;
pub mod decimal;
pub mod demo;
pub mod double;
pub mod fit_laws;
pub mod flow;
pub mod geom;
pub mod graph;
pub mod harness;
pub mod layout;
pub mod liberty;
pub mod liberty_laws;
pub mod limits;
pub mod lstsq;
pub mod manifest;
pub mod matching;
pub mod measure;
pub mod mock;
pub mod netlist;
pub mod numfmt;
pub mod optim;
pub mod ordmap;
pub mod paths;
pub mod place;
pub mod place_report;
pub mod primitives;
pub mod reporter;
pub mod route;
pub mod runs;
pub mod same_loss;
pub mod sim_csv;
pub mod sim_pdf;
pub mod sim_plot;
pub mod sim_report;
pub mod single;
pub mod spice;
pub mod stdcells;
pub mod tensor;
pub mod text;
pub mod tile;
pub mod trace;
pub mod trace_report;
pub mod triangulate;
pub mod validate;
pub mod verify;
pub mod vfit;
