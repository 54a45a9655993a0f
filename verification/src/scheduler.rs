//! The update schedule and the outcome of update cycles.
use vstd::prelude::*;
use crate::compose::updater::{ComposeUpdater, UpdateReport};
use crate::config::Config;
use crate::health::HealthHandle;

verus! {

#[verifier::external_type_specification]
#[verifier::external_body]
pub struct ExSchedule(cron::Schedule);

/// Whether the `cron` crate accepts `expr` as a schedule (seconds, minutes,
/// hours, day of month, month, day of week and an optional year).
pub uninterp spec fn cron_accepts(expr: Seq<char>) -> bool;

/// The expression a cron schedule was parsed from (`Schedule::source`; the
/// parser keeps the text it was given).
pub uninterp spec fn cron_source(s: cron::Schedule) -> Seq<char>;

/// Calls `cron::Schedule::from_str`; whether it succeeds is named
/// `cron_accepts`, the schedule it builds keeps `expr` as its source
/// (`cron_source`), and its error is turned into its message.
#[verifier::external_body]
fn parse_schedule(expr: &str) -> (r: Result<cron::Schedule, String>)
    ensures
        r is Ok <==> cron_accepts(expr@),
        r matches Ok(s) ==> cron_source(s) == expr@,
{
    match <cron::Schedule as std::str::FromStr>::from_str(expr) {
        Ok(s) => Ok(s),
        Err(e) => Err(e.to_string()),
    }
}

/// Why a scheduler could not be built.
#[derive(Debug)]
pub enum SchedulerError {
    /// The schedule is not a cron expression.
    InvalidCron { expression: String, message: String },
}

/// Why an update cycle counts as failed.
#[derive(Debug, PartialEq, Eq)]
pub enum CycleError {
    /// No compose file was found under the configured paths.
    NoComposeFiles,
    /// Some services or files failed; the rest was updated.
    Degraded { errors: usize, updated: usize },
}

/// Runs update cycles on a schedule.
pub struct Scheduler {
    pub config: Config,
    pub updater: ComposeUpdater,
    pub schedule: cron::Schedule,
    pub health_handle: Option<HealthHandle>,
}

impl Scheduler {
    /// A scheduler for `config`; fails when its schedule is not a cron
    /// expression.
    pub fn new(config: Config, health_handle: Option<HealthHandle>) -> (r: Result<
        Self,
        SchedulerError,
    >)
        ensures
            r is Ok <==> cron_accepts(config@.schedule),
            r matches Ok(s) ==> s.config@ == config@ && s.updater.config@ == config@
                && s.health_handle == health_handle && cron_source(s.schedule) == config@.schedule,
            r matches Err(SchedulerError::InvalidCron { expression, .. }) ==> expression@
                == config@.schedule,
    {
        let schedule = match parse_schedule(config.schedule.as_str()) {
            Ok(s) => s,
            Err(message) => {
                return Err(
                    SchedulerError::InvalidCron { expression: config.schedule.clone(), message },
                );
            },
        };
        let updater = ComposeUpdater::new(config.duplicate());
        Ok(Scheduler { config, updater, schedule, health_handle })
    }

    /// Judges a finished update cycle and reports it to the health handle: a
    /// cycle that found no compose file, or in which some service or file
    /// failed, is a failure; otherwise a success.
    pub fn finish_cycle(&self, report: &UpdateReport) -> (r: Result<(), CycleError>)
        ensures
            report.files_found == 0 ==> r == Err::<(), CycleError>(CycleError::NoComposeFiles),
            report.files_found > 0 && report.errors@.len() > 0 ==> r == Err::<(), CycleError>(
                CycleError::Degraded {
                    errors: report.errors@.len() as usize,
                    updated: report.updated_files@.len() as usize,
                },
            ),
            report.files_found > 0 && report.errors@.len() == 0 ==> r is Ok,
    {
        if report.files_found == 0 {
            if let Some(health) = &self.health_handle {
                health.report_update_failure();
            }
            return Err(CycleError::NoComposeFiles);
        }
        if report.errors.len() > 0 {
            if let Some(health) = &self.health_handle {
                health.report_update_failure();
            }
            return Err(
                CycleError::Degraded {
                    errors: report.errors.len(),
                    updated: report.updated_files.len(),
                },
            );
        }
        if let Some(health) = &self.health_handle {
            health.report_update_success();
        }
        Ok(())
    }

    /// Reports a cycle that could not run at all.
    pub fn fail_cycle(&self) {
        if let Some(health) = &self.health_handle {
            health.report_update_failure();
        }
    }
}

/// How long to sleep before the next cycle, in milliseconds: until the next
/// scheduled run but at least a second, or a minute when the schedule has no
/// next run.
pub open spec fn sleep_millis_for(until_next: Option<i64>) -> u64 {
    match until_next {
        Some(ms) => if ms < 1000 {
            1000
        } else {
            ms as u64
        },
        None => 60000,
    }
}

/// How long to sleep before the next cycle, given the milliseconds until the
/// next scheduled run, if there is one.
pub fn sleep_millis(until_next: Option<i64>) -> (r: u64)
    ensures
        r == sleep_millis_for(until_next),
        r >= 1000,
{
    match until_next {
        Some(ms) => if ms < 1000 {
            1000
        } else {
            ms as u64
        },
        None => 60000,
    }
}

} // verus!
