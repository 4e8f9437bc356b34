//! Which files a run writes into its output directory, decided from the
//! `[output]` section before any file is touched.

use vstd::prelude::*;
use crate::config::Output;

verus! {

/// One file of a run's output directory.
#[derive(Clone, Copy, Debug, PartialEq, Eq, Structural)]
pub enum DumpFile {
    /// `density.json`: the converged site densities.
    Density,
    /// `spectrum.json`: the Kohn-Sham levels, with the eigenvector
    /// columns when asked for.
    Spectrum { with_eigenvectors: bool },
    /// `partition_function.json`: partition functions, free energy and
    /// SCF statistics.
    PartitionFunction,
    /// `observables.json`: always written, even when empty.
    Observables,
    /// `run.toml`: the fully resolved configuration.
    RunConfig,
}

/// The name of a dump file inside the output directory.
pub open spec fn dump_file_name_spec(f: DumpFile) -> Seq<char> {
    match f {
        DumpFile::Density => "density.json"@,
        DumpFile::Spectrum { .. } => "spectrum.json"@,
        DumpFile::PartitionFunction => "partition_function.json"@,
        DumpFile::Observables => "observables.json"@,
        DumpFile::RunConfig => "run.toml"@,
    }
}

/// The name of a dump file inside the output directory.
pub fn dump_file_name(f: DumpFile) -> (r: &'static str)
    ensures
        r@ == dump_file_name_spec(f),
{
    match f {
        DumpFile::Density => "density.json",
        DumpFile::Spectrum { .. } => "spectrum.json",
        DumpFile::PartitionFunction => "partition_function.json",
        DumpFile::Observables => "observables.json",
        DumpFile::RunConfig => "run.toml",
    }
}

/// What writing a run's outputs does.
#[derive(Clone, Debug)]
pub struct OutputPlan {
    /// Whether the output directory has to be created first.
    pub create_directory: bool,
    /// The files to write, in order.
    pub files: Vec<DumpFile>,
}

/// Why a run's outputs are not written.
#[derive(Clone, Copy, Debug, PartialEq, Eq, Structural)]
pub enum OutputError {
    /// The output directory exists and `[output].overwrite` is off.
    DirectoryExists,
}

/// The files a run writes under `cfg`, in order; `run.toml` comes last
/// and only when the resolved configuration is dumped too.
pub open spec fn planned_files(cfg: Output, with_config: bool) -> Seq<DumpFile> {
    (if cfg.dump_density {
        seq![DumpFile::Density]
    } else {
        Seq::empty()
    }) + (if cfg.dump_spectrum {
        seq![DumpFile::Spectrum { with_eigenvectors: cfg.dump_eigvecs }]
    } else {
        Seq::empty()
    }) + (if cfg.dump_partition_function {
        seq![DumpFile::PartitionFunction]
    } else {
        Seq::empty()
    }) + seq![DumpFile::Observables] + (if with_config {
        seq![DumpFile::RunConfig]
    } else {
        Seq::empty()
    })
}

/// Decides how a run's outputs are written: an existing directory is
/// refused unless `overwrite` is on, a missing one is created, and the
/// dumps that `cfg` asks for are listed in writing order.
pub fn plan_output(directory_exists: bool, cfg: &Output, with_config: bool) -> (r: Result<
    OutputPlan,
    OutputError,
>)
    ensures
        directory_exists && !cfg.overwrite ==> r == Err::<OutputPlan, OutputError>(
            OutputError::DirectoryExists,
        ),
        !(directory_exists && !cfg.overwrite) ==> (r matches Ok(p) && p.create_directory
            == !directory_exists && p.files@ == planned_files(*cfg, with_config)),
{
    if directory_exists && !cfg.overwrite {
        return Err(OutputError::DirectoryExists);
    }
    let mut files: Vec<DumpFile> = Vec::new();
    if cfg.dump_density {
        files.push(DumpFile::Density);
    }
    if cfg.dump_spectrum {
        files.push(DumpFile::Spectrum { with_eigenvectors: cfg.dump_eigvecs });
    }
    if cfg.dump_partition_function {
        files.push(DumpFile::PartitionFunction);
    }
    files.push(DumpFile::Observables);
    if with_config {
        files.push(DumpFile::RunConfig);
    }
    assert(files@ =~= planned_files(*cfg, with_config));
    Ok(OutputPlan { create_directory: !directory_exists, files })
}

} // verus!
