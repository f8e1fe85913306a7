//! The whole conversion: declarations and text in, file bytes out.

use vstd::prelude::*;
use crate::bytes::views;
use crate::decode::{decode, decode_spec};
use crate::error::{Error, ErrorView};
use crate::project::{project, project_spec};
use crate::schema::{resolve_schema, schema_of};
use crate::sort::{sort, sort_spec};
use crate::table::{Table, TableView};
use crate::writer::{file_bytes, write_table};

verus! {

/// What to convert and how.
#[derive(Debug)]
pub struct Config {
    /// The column declarations, `name:type` each, in the order of the
    /// schema.
    pub columns: Vec<Vec<u8>>,
    /// The number of lines before the header.
    pub skip_rows: usize,
    /// The names of the columns to keep, in the order of the output.
    pub select: Vec<Vec<u8>>,
    /// The names of the sort keys, the first counting most.
    pub sort: Vec<Vec<u8>>,
}

/// The mathematical value of a `Config`.
pub struct ConfigView {
    pub columns: Seq<Seq<u8>>,
    pub skip_rows: nat,
    pub select: Seq<Seq<u8>>,
    pub sort: Seq<Seq<u8>>,
}

impl View for Config {
    type V = ConfigView;

    open spec fn view(&self) -> ConfigView {
        ConfigView {
            columns: views(self.columns@),
            skip_rows: self.skip_rows as nat,
            select: views(self.select@),
            sort: views(self.sort@),
        }
    }
}

/// The table that a conversion writes: the text decoded against the
/// declared schema, projected onto the selected columns, and sorted by
/// the sort keys.  The first stage that fails gives the error.
pub open spec fn table_spec(c: ConfigView, input: Seq<u8>) -> Result<TableView, ErrorView> {
    match schema_of(c.columns) {
        Err(e) => Err(e),
        Ok(schema) => match decode_spec(input, schema, c.skip_rows) {
            Err(e) => Err(e),
            Ok(decoded) => match project_spec(decoded, c.select) {
                Err(e) => Err(e),
                Ok(projected) => sort_spec(projected, c.sort),
            },
        },
    }
}

/// The bytes that a conversion writes.
pub open spec fn convert_spec(c: ConfigView, input: Seq<u8>) -> Result<Seq<u8>, ErrorView> {
    match table_spec(c, input) {
        Err(e) => Err(e),
        Ok(t) => Ok(file_bytes(t)),
    }
}

/// Builds the table that the conversion writes.
pub fn build_table(config: &Config, input: &[u8]) -> (r: Result<Table, Error>)
    ensures
        match r {
            Ok(t) => t.wf() && table_spec(config@, input@) == Ok::<TableView, ErrorView>(t@),
            Err(e) => table_spec(config@, input@) == Err::<TableView, ErrorView>(e@),
        },
{
    let schema = match resolve_schema(&config.columns) {
        Ok(schema) => schema,
        Err(e) => {
            return Err(e);
        },
    };
    let decoded = match decode(input, &schema, config.skip_rows) {
        Ok(t) => t,
        Err(e) => {
            return Err(e);
        },
    };
    let mut table = match project(&decoded, &config.select) {
        Ok(t) => t,
        Err(e) => {
            return Err(e);
        },
    };
    match sort(&mut table, &config.sort) {
        Ok(_) => Ok(table),
        Err(e) => Err(e),
    }
}

/// Converts delimited text into the bytes of a columnar file.
///
/// Nothing is written when a stage fails: the error of the first stage
/// that fails is returned instead.
pub fn convert(config: &Config, input: &[u8]) -> (r: Result<Vec<u8>, Error>)
    ensures
        match r {
            Ok(bytes) => convert_spec(config@, input@) == Ok::<Seq<u8>, ErrorView>(bytes@),
            Err(e) => convert_spec(config@, input@) == Err::<Seq<u8>, ErrorView>(e@),
        },
{
    match build_table(config, input) {
        Ok(t) => Ok(write_table(&t)),
        Err(e) => Err(e),
    }
}

} // verus!
