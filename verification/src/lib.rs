//! Verified core of the CityParquet CityGML/CityJSON conversion logic.

pub mod text;
pub mod json;
pub mod error;
pub mod crs;
pub mod xml;
pub mod xml_stream;
pub mod shape;
pub mod semantics;
pub mod building;
pub mod appearance;
pub mod shells;
pub mod report;
pub mod attributes;
pub mod boundaries;
pub mod pools;
pub mod address;
pub mod counting;
pub mod interner;
pub mod properties;
pub mod canonical;
pub mod resolve;
pub mod decode;
pub mod layout;
pub mod export;
pub mod gml;
pub mod encoding;
pub mod localise;
pub mod assembly;
pub mod appearance_read;
pub mod building_read;
pub mod coerce;
