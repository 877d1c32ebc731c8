//! Choosing what to compact.
//!
//! Level 0 is compacted into level 1 as soon as it holds four files; all of
//! its files go in, since their key ranges may overlap. A level from the
//! first on is compacted into the next when its files are larger, taken
//! together, than the target of the level; its oldest file goes in.

use vstd::prelude::*;
use crate::compaction::version::{files_size, lemma_files_size_grows, FileMetaData, FileMetaView};
use crate::compaction::{target_size, target_size_for_level, MAX_LEVEL0_FILES, MAX_SIZED_LEVEL};

verus! {

/// What a compaction works on.
#[derive(Debug, Clone)]
pub struct CompactionTask {
    /// The files that are merged.
    pub inputs: Vec<FileMetaData>,
    /// The level of the files.
    pub level: usize,
    /// The level of the file that is written.
    pub output_level: usize,
}

/// What a compaction works on, as a mathematical value.
pub struct TaskView {
    pub inputs: Seq<FileMetaView>,
    pub level: usize,
    pub output_level: usize,
}

impl View for CompactionTask {
    type V = TaskView;

    open spec fn view(&self) -> TaskView {
        TaskView {
            inputs: self.inputs@.map_values(|f: FileMetaData| f@),
            level: self.level,
            output_level: self.output_level,
        }
    }
}

/// Whether the files of a level are larger, taken together, than the
/// target of the level. A level whose target does not fit into 64 bits is
/// never over it.
pub open spec fn over_target(files: Seq<FileMetaView>, level: int) -> bool {
    1 <= level <= MAX_SIZED_LEVEL && files_size(files) > target_size(level as nat)
}

/// The first level from `from` up to, but not including, `upto` that is
/// over its target.
pub open spec fn first_over_target(levels: Seq<Seq<FileMetaView>>, from: int, upto: int) -> Option<
    int,
>
    decreases upto - from,
{
    if from < 0 || from >= upto || from >= levels.len() {
        None
    } else if over_target(levels[from], from) {
        Some(from)
    } else {
        first_over_target(levels, from + 1, upto)
    }
}

/// The level that is over its target lies within the levels asked for.
pub proof fn lemma_first_over_target(levels: Seq<Seq<FileMetaView>>, from: int, upto: int)
    ensures
        first_over_target(levels, from, upto) matches Some(l) ==> from <= l < upto && l
            < levels.len() && 1 <= l <= MAX_SIZED_LEVEL,
    decreases upto - from,
{
    if !(from < 0 || from >= upto || from >= levels.len()) && !over_target(levels[from], from) {
        lemma_first_over_target(levels, from + 1, upto);
    }
}

/// A task leads from a level to the next.
pub proof fn lemma_pick(levels: Seq<Seq<FileMetaView>>, max_levels: usize)
    ensures
        pick(levels, max_levels) matches Some(task) ==> task.output_level == task.level + 1
            && task.level < levels.len() && task.inputs.len() > 0 && (task.level == 0
            ==> task.inputs == levels[0]) && (task.level >= 1 ==> levels[task.level as int].len()
            > 0 && task.inputs == seq![levels[task.level as int][0]]),
{
    lemma_first_over_target(levels, 1, max_levels - 1);
}

/// What is compacted next, if anything: level 0 when it holds four files
/// or more, else the first level from level 1 up to the last but one that
/// is over its target.
pub open spec fn pick(levels: Seq<Seq<FileMetaView>>, max_levels: usize) -> Option<TaskView> {
    if levels.len() == 0 {
        None
    } else if levels[0].len() >= MAX_LEVEL0_FILES {
        Some(TaskView { inputs: levels[0], level: 0, output_level: 1 })
    } else {
        match first_over_target(levels, 1, max_levels - 1) {
            Some(l) => if levels[l].len() > 0 {
                Some(
                    TaskView {
                        inputs: seq![levels[l][0]],
                        level: l as usize,
                        output_level: (l + 1) as usize,
                    },
                )
            } else {
                None
            },
            None => None,
        }
    }
}

/// Chooses what to compact.
pub struct CompactionPicker {
    max_levels: usize,
}

impl CompactionPicker {
    /// The number of levels that the picker looks at.
    pub closed spec fn spec_max_levels(&self) -> usize {
        self.max_levels
    }

    /// A picker for a database of `max_levels` levels.
    pub fn new(max_levels: usize) -> (p: Self)
        ensures
            p.spec_max_levels() == max_levels,
    {
        CompactionPicker { max_levels }
    }

    /// What is compacted next, if anything.
    pub fn pick_compaction(&self, levels: &Vec<Vec<FileMetaData>>) -> (task: Option<CompactionTask>)
        ensures
            match pick(crate::compaction::version::level_views(levels@), self.spec_max_levels()) {
                Some(t) => task matches Some(picked) && picked@ == t,
                None => task is None,
            },
    {
        let ghost views = crate::compaction::version::level_views(levels@);
        if levels.len() == 0 {
            return None;
        }
        proof {
            assert(views[0] == levels@[0]@.map_values(|f: FileMetaData| f@));
        }
        if levels[0].len() >= MAX_LEVEL0_FILES {
            return self.pick_level0_compaction(levels);
        }
        if self.max_levels < 2 {
            return None;
        }
        let mut level: usize = 1;
        while level < self.max_levels - 1 && level < levels.len()
            invariant
                1 <= level,
                self.max_levels >= 2,
                levels@.len() > 0,
                views == crate::compaction::version::level_views(levels@),
                views[0].len() < MAX_LEVEL0_FILES,
                first_over_target(views, 1, self.max_levels - 1) == first_over_target(
                    views,
                    level as int,
                    self.max_levels - 1,
                ),
            decreases levels@.len() - level,
        {
            proof {
                assert(views[level as int] == levels@[level as int]@.map_values(
                    |f: FileMetaData| f@,
                ));
            }
            if level <= MAX_SIZED_LEVEL && Self::exceeds(
                &levels[level],
                target_size_for_level(level),
            ) {
                proof {
                    if levels@[level as int]@.len() > 0 {
                        assert(views[level as int][0] == levels@[level as int]@[0]@);
                    }
                }
                return self.pick_level_compaction(levels, level);
            }
            level += 1;
        }
        None
    }

    /// All files of level 0, to be merged into level 1.
    fn pick_level0_compaction(&self, levels: &Vec<Vec<FileMetaData>>) -> (task: Option<
        CompactionTask,
    >)
        requires
            levels@.len() > 0,
            levels@[0]@.len() > 0,
        ensures
            task matches Some(picked) && picked@ == (TaskView {
                inputs: levels@[0]@.map_values(|f: FileMetaData| f@),
                level: 0,
                output_level: 1,
            }),
    {
        let files = &levels[0];
        let mut inputs: Vec<FileMetaData> = Vec::new();
        let mut i: usize = 0;
        while i < files.len()
            invariant
                i <= files@.len(),
                inputs@.len() == i,
                forall|j: int| 0 <= j < i ==> (#[trigger] inputs@[j])@ == files@[j]@,
            decreases files@.len() - i,
        {
            inputs.push(files[i].duplicate());
            i += 1;
        }
        let task = CompactionTask { inputs, level: 0, output_level: 1 };
        assert(task@.inputs =~= files@.map_values(|f: FileMetaData| f@));
        Some(task)
    }

    /// The oldest file of a level, to be merged into the next level.
    fn pick_level_compaction(&self, levels: &Vec<Vec<FileMetaData>>, level: usize) -> (task: Option<
        CompactionTask,
    >)
        requires
            level < usize::MAX,
        ensures
            if level < levels@.len() && levels@[level as int]@.len() > 0 {
                task matches Some(picked) && picked@ == (TaskView {
                    inputs: seq![levels@[level as int]@[0]@],
                    level,
                    output_level: (level + 1) as usize,
                })
            } else {
                task is None
            },
    {
        if level >= levels.len() || levels[level].len() == 0 {
            return None;
        }
        let mut inputs: Vec<FileMetaData> = Vec::new();
        inputs.push(levels[level][0].duplicate());
        let task = CompactionTask { inputs, level, output_level: level + 1 };
        assert(task@.inputs =~= seq![levels@[level as int]@[0]@]);
        Some(task)
    }

    /// Whether the files are larger, taken together, than `target`.
    fn exceeds(files: &Vec<FileMetaData>, target: u64) -> (b: bool)
        ensures
            b == (files_size(files@.map_values(|f: FileMetaData| f@)) > target),
    {
        let ghost views = files@.map_values(|f: FileMetaData| f@);
        let mut sum: u128 = 0;
        let mut i: usize = 0;
        proof {
            assert(views.subrange(0, 0) =~= Seq::<FileMetaView>::empty());
        }
        while i < files.len()
            invariant
                i <= files@.len(),
                views == files@.map_values(|f: FileMetaData| f@),
                sum == files_size(views.subrange(0, i as int)),
                sum <= target,
            decreases files@.len() - i,
        {
            proof {
                let upto = views.subrange(0, i + 1);
                assert(upto.drop_last() =~= views.subrange(0, i as int));
                assert(upto.last() == views[i as int]);
                lemma_files_size_grows(views, i + 1);
            }
            sum = sum + files[i].file_size as u128;
            if sum > target as u128 {
                return true;
            }
            i += 1;
        }
        proof {
            assert(views.subrange(0, files@.len() as int) =~= views);
        }
        false
    }

    /// The sizes of the files of a level, added up.
    pub fn calculate_level_size(&self, level: &Vec<FileMetaData>) -> (n: u64)
        requires
            files_size(level@.map_values(|f: FileMetaData| f@)) <= u64::MAX,
        ensures
            n == files_size(level@.map_values(|f: FileMetaData| f@)),
    {
        let ghost views = level@.map_values(|f: FileMetaData| f@);
        let mut sum: u64 = 0;
        let mut i: usize = 0;
        proof {
            assert(views.subrange(0, 0) =~= Seq::<FileMetaView>::empty());
        }
        while i < level.len()
            invariant
                i <= level@.len(),
                views == level@.map_values(|f: FileMetaData| f@),
                sum == files_size(views.subrange(0, i as int)),
                files_size(views) <= u64::MAX,
            decreases level@.len() - i,
        {
            proof {
                let upto = views.subrange(0, i + 1);
                assert(upto.drop_last() =~= views.subrange(0, i as int));
                assert(upto.last() == views[i as int]);
                lemma_files_size_grows(views, i + 1);
            }
            sum = sum + level[i].file_size;
            i += 1;
        }
        proof {
            assert(views.subrange(0, level@.len() as int) =~= views);
        }
        sum
    }
}

} // verus!
