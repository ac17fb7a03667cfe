//! The files of a scan, and the plans attached to them.

use vstd::prelude::*;
use datafusion_datasource::file_groups::FileGroup;
use datafusion_datasource::PartitionedFile;
use datafusion_datasource_parquet::ParquetAccessPlan;
use crate::access_plan;
use crate::access_plan::empty_plan;
use crate::paths;
use crate::runner;
use crate::runner::{entry_for_path, NoFileId, PlanList};

verus! {

#[verifier::external_type_specification]
#[verifier::external_body]
pub struct ExPartitionedFile(PartitionedFile);

#[verifier::external_type_specification]
#[verifier::external_body]
pub struct ExFileGroup(FileGroup);

/// Where `file` lies.
pub uninterp spec fn file_location(file: PartitionedFile) -> Seq<char>;

/// The access plan attached to `file`, if there is one.
pub uninterp spec fn file_plan(file: PartitionedFile) -> Option<ParquetAccessPlan>;

/// The files of `group`, in order.
pub uninterp spec fn group_files(group: FileGroup) -> Seq<PartitionedFile>;

/// `file` with `plan` attached, and otherwise as it was.
pub uninterp spec fn with_plan(file: PartitionedFile, plan: ParquetAccessPlan) -> PartitionedFile;

/// `PartitionedFile::object_meta` holds the location of the file.
#[verifier::external_body]
fn location_of(file: &PartitionedFile) -> (location: String)
    ensures
        location@ == file_location(*file),
{
    let location: &str = file.object_meta.location.as_ref();
    location.to_string()
}

/// `FileGroup::iter` hands out the files of the group in order; they are cloned.
#[verifier::external_body]
fn files_of(group: &FileGroup) -> (files: Vec<PartitionedFile>)
    ensures
        files@ == group_files(*group),
{
    group.iter().cloned().collect()
}

/// `FileGroup::new` makes a group of the files.
pub assume_specification[ FileGroup::new ](files: Vec<PartitionedFile>) -> (group: FileGroup)
    ensures
        group_files(group) == files@,
;

/// `PartitionedFile::with_extension` attaches a clone of the plan by value, which
/// replaces a plan that is there already. The location stays.
#[verifier::external_body]
fn attach_plan(file: PartitionedFile, plan: &ParquetAccessPlan) -> (attached: PartitionedFile)
    ensures
        attached == with_plan(file, *plan),
        file_plan(attached) == Some(*plan),
        file_location(attached) == file_location(file),
{
    file.with_extension(plan.clone())
}

/// `after` is `before` with its plan attached. The file lies where it lay. A file whose
/// number is listed carries the plan listed for it, or, where it is listed as a file
/// without hits, one that skips all its row groups. A file beyond the list stays as it
/// was.
pub open spec fn carries_its_plan(
    plans: Seq<Option<ParquetAccessPlan>>,
    before: PartitionedFile,
    after: PartitionedFile,
) -> bool {
    &&& file_location(after) == file_location(before)
    &&& match runner::entry_at(plans, file_location(before)) {
        Some(listed) => {
            &&& file_plan(after) matches Some(plan)
            &&& after == with_plan(before, plan)
            &&& match listed {
                Some(given) => plan == given,
                None => access_plan::plan_groups(plan) == access_plan::nothing_read(),
            }
        },
        None => after == before,
    }
}

/// The locations of all `files` end in a file number.
pub open spec fn all_numbered(files: Seq<PartitionedFile>) -> bool {
    forall|k: int|
        0 <= k < files.len() ==> paths::id_in(file_location(#[trigger] files[k])) is Some
}

/// Attaches to each file the plan of its number, as [`carries_its_plan`] says. Fails
/// where a file has no number.
fn attach_to_files(files: Vec<PartitionedFile>, plans: &PlanList) -> (attached: Result<
    Vec<PartitionedFile>,
    NoFileId,
>)
    ensures
        attached is Ok <==> all_numbered(files@),
        attached matches Ok(out) ==> {
            &&& out@.len() == files@.len()
            &&& forall|k: int|
                0 <= k < files@.len() ==> carries_its_plan(plans@, files@[k], #[trigger] out@[k])
        },
{
    let ghost all = files@;
    let mut out: Vec<PartitionedFile> = Vec::new();
    for file in it: files
        invariant
            it.seq() == all,
            all == files@,
            out@.len() == it.index(),
            forall|k: int|
                0 <= k < out@.len() ==> carries_its_plan(plans@, all[k], #[trigger] out@[k]),
            forall|k: int|
                0 <= k < out@.len() ==> paths::id_in(file_location(#[trigger] all[k])) is Some,
    {
        let location = location_of(&file);
        assert(file == all[it.index() as int]);
        match entry_for_path(plans, location.as_str()) {
            Err(e) => {
                return Err(e);
            },
            Ok(Some(Some(plan))) => {
                out.push(attach_plan(file, plan));
            },
            Ok(Some(None)) => {
                out.push(attach_plan(file, &empty_plan()));
            },
            Ok(None) => {
                out.push(file);
            },
        }
    }
    Ok(out)
}

/// Attaches to each file of `groups` the plan of its number, as [`carries_its_plan`]
/// says, and keeps the groups and the files in their order. Fails where a file has no
/// number.
pub fn attach_to_groups(groups: &Vec<FileGroup>, plans: &PlanList) -> (attached: Result<
    Vec<FileGroup>,
    NoFileId,
>)
    ensures
        attached is Ok <==> forall|g: int|
            0 <= g < groups@.len() ==> all_numbered(group_files(#[trigger] groups@[g])),
        attached matches Ok(out) ==> {
            &&& out@.len() == groups@.len()
            &&& forall|g: int|
                #![trigger out@[g]]
                0 <= g < groups@.len() ==> {
                    &&& group_files(out@[g]).len() == group_files(groups@[g]).len()
                    &&& forall|k: int|
                        0 <= k < group_files(groups@[g]).len() ==> carries_its_plan(
                            plans@,
                            group_files(groups@[g])[k],
                            #[trigger] group_files(out@[g])[k],
                        )
                }
        },
{
    let mut out: Vec<FileGroup> = Vec::new();
    let mut g: usize = 0;
    while g < groups.len()
        invariant
            g <= groups@.len(),
            out@.len() == g,
            forall|h: int| 0 <= h < g ==> all_numbered(group_files(#[trigger] groups@[h])),
            forall|h: int|
                #![trigger out@[h]]
                0 <= h < g ==> {
                    &&& group_files(out@[h]).len() == group_files(groups@[h]).len()
                    &&& forall|k: int|
                        0 <= k < group_files(groups@[h]).len() ==> carries_its_plan(
                            plans@,
                            group_files(groups@[h])[k],
                            #[trigger] group_files(out@[h])[k],
                        )
                },
        decreases groups@.len() - g,
    {
        match attach_to_files(files_of(&groups[g]), plans) {
            Err(e) => {
                return Err(e);
            },
            Ok(files) => {
                out.push(FileGroup::new(files));
            },
        }
        g += 1;
    }
    Ok(out)
}

/// A file of the scan keeps its place and carries the plan listed under its own number.
/// Listed without a plan, it carries one that skips all 39 row groups. Beyond the list
/// it stays as it was.
pub proof fn law_files_carry_the_plan_of_their_number(
    plans: Seq<Option<ParquetAccessPlan>>,
    f: usize,
    before: PartitionedFile,
    after: PartitionedFile,
)
    requires
        paths::id_in(file_location(before)) == Some(f),
        carries_its_plan(plans, before, after),
    ensures
        file_location(after) == file_location(before),
        f >= plans.len() ==> after == before,
        f < plans.len() ==> file_plan(after) is Some && after == with_plan(
            before,
            file_plan(after)->0,
        ),
        f < plans.len() && plans[f as int] is Some ==> file_plan(after) == plans[f as int],
        f < plans.len() && plans[f as int] is None ==> access_plan::plan_groups(
            file_plan(after)->0,
        ) == Seq::new(39, |g: int| access_plan::GroupAccess::Skip),
{
    access_plan::lemma_row_groups();
}

/// A data file, in whatever directory, has the number that it was named by, so it carries
/// the plan of that number.
pub proof fn law_data_files_carry_their_plan(
    plans: Seq<Option<ParquetAccessPlan>>,
    f: usize,
    dir: Seq<char>,
    before: PartitionedFile,
    after: PartitionedFile,
)
    requires
        f < plans.len(),
        plans[f as int] is Some,
        file_location(before) == dir + seq!['/'] + paths::file_name_text(f as nat),
        carries_its_plan(plans, before, after),
    ensures
        file_plan(after) == plans[f as int],
{
    paths::law_file_id_reads_file_name(f, dir);
    law_files_carry_the_plan_of_their_number(plans, f, before, after);
}

/// Files have numbers where each of their locations ends in one.
pub proof fn law_one_file_without_a_number_spoils_all(
    files: Seq<PartitionedFile>,
    one: PartitionedFile,
)
    ensures
        all_numbered(Seq::empty()),
        all_numbered(files.push(one)) <==> all_numbered(files) && paths::id_in(file_location(one))
            is Some,
{
    let more = files.push(one);
    if all_numbered(more) {
        assert(more[files.len() as int] == one);
        assert forall|k: int| 0 <= k < files.len() implies paths::id_in(
            file_location(#[trigger] files[k]),
        ) is Some by {
            assert(more[k] == files[k]);
        }
    }
    if all_numbered(files) && paths::id_in(file_location(one)) is Some {
        assert forall|k: int| 0 <= k < more.len() implies paths::id_in(
            file_location(#[trigger] more[k]),
        ) is Some by {
            if k < files.len() {
                assert(more[k] == files[k]);
            }
        }
    }
}

} // verus!
