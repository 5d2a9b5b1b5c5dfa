//! The text form of a snapshot: a section of objects, then a section of threads, one
//! entry of a record per line.
//!
//! ```text
//! objects
//! <address>
//! <size>
//! <addresses the object refers to>
//! <addresses that refer to the object>
//! threads
//! <thread name>
//! <root addresses>
//! ```
use crate::graph::{
    distinct_names, heap_model, named_threads, HeapObject, ObjectModel, ThreadRootSet,
};
use crate::hashing::{fnv_modelled, new_address_map};
use crate::text::{addresses_in, chars_of, number, parse_decimal, try_parse_address_list};
use fnv::{FnvHashMap, FnvHashSet};
use vstd::prelude::*;
use vstd::string::StringExecFns;

verus! {

/// A snapshot as it is read: the objects by address and the threads with their roots.
pub struct Snapshot {
    pub objects: FnvHashMap<u64, HeapObject>,
    pub threads: Vec<ThreadRootSet>,
}

/// What a snapshot stands for.
pub struct SnapshotModel {
    pub objects: Map<u64, ObjectModel>,
    pub threads: Seq<(Seq<char>, Set<u64>)>,
}

/// The input is not the text form of a snapshot.
#[derive(Debug)]
pub struct BrokenInput;

/// The lines as sequences of characters.
pub open spec fn line_views(lines: Seq<String>) -> Seq<Seq<char>> {
    Seq::new(lines.len(), |i: int| lines[i]@)
}

/// The place of the first thread called `name`.
pub open spec fn thread_position(threads: Seq<(Seq<char>, Set<u64>)>, name: Seq<char>) -> Option<
    int,
>
    decreases threads.len(),
{
    if threads.len() == 0 {
        None
    } else {
        match thread_position(threads.drop_last(), name) {
            Some(j) => Some(j),
            None => if threads.last().0 == name {
                Some(threads.len() - 1)
            } else {
                None
            },
        }
    }
}

/// The threads once `name` has the roots `roots`: a thread of that name gets them in
/// place of those it had, and else a new thread comes last.
pub open spec fn with_thread(
    threads: Seq<(Seq<char>, Set<u64>)>,
    name: Seq<char>,
    roots: Set<u64>,
) -> Seq<(Seq<char>, Set<u64>)> {
    match thread_position(threads, name) {
        Some(j) => threads.update(j, (name, roots)),
        None => threads.push((name, roots)),
    }
}

/// The objects that the lines from line `i` on add to `objects`, and the line at which
/// the section of threads begins.
///
/// The section of objects ends with the input, with the line `threads` or with an empty
/// line in place of an address. A record that has begun takes four lines: the result is
/// `None` where one of them is missing, or where the address, the size or a list of
/// addresses is not well formed; an empty line is no size. An address that comes again
/// replaces the object read before.
pub open spec fn objects_section(
    lines: Seq<Seq<char>>,
    i: int,
    objects: Map<u64, ObjectModel>,
) -> Option<(Map<u64, ObjectModel>, int)>
    decreases lines.len() - i,
{
    if i < 0 || i >= lines.len() {
        Some((objects, i))
    } else if lines[i] == "threads"@ || lines[i].len() == 0 {
        Some((objects, i + 1))
    } else {
        match number(lines[i], u64::MAX as nat) {
            None => None,
            Some(address) => if i + 3 >= lines.len() {
                None
            } else {
                match (
                    number(lines[i + 1], u32::MAX as nat),
                    addresses_in(lines[i + 2]),
                    addresses_in(lines[i + 3]),
                ) {
                    (Some(size), Some(referents), Some(inbound_references)) => objects_section(
                        lines,
                        i + 4,
                        objects.insert(
                            address as u64,
                            ObjectModel { size, referents, inbound_references },
                        ),
                    ),
                    _ => None,
                }
            },
        }
    }
}

/// The threads that the lines from line `i` on add to `threads`.
///
/// The section of threads ends with the input. The result is `None` where a name is
/// empty, or where the line of the roots is missing or is not a list of addresses.
pub open spec fn threads_section(
    lines: Seq<Seq<char>>,
    i: int,
    threads: Seq<(Seq<char>, Set<u64>)>,
) -> Option<Seq<(Seq<char>, Set<u64>)>>
    decreases lines.len() - i,
{
    if i < 0 || i >= lines.len() {
        Some(threads)
    } else if lines[i].len() == 0 || i + 1 >= lines.len() {
        None
    } else {
        match addresses_in(lines[i + 1]) {
            None => None,
            Some(roots) => threads_section(lines, i + 2, with_thread(threads, lines[i], roots)),
        }
    }
}

/// The snapshot that the lines write, where they write one: the line `objects`, the
/// section of objects and the section of threads.
pub open spec fn snapshot_of(lines: Seq<Seq<char>>) -> Option<SnapshotModel> {
    if lines.len() == 0 || lines[0] != "objects"@ {
        None
    } else {
        match objects_section(lines, 1, Map::empty()) {
            None => None,
            Some((objects, next)) => match threads_section(lines, next, Seq::empty()) {
                None => None,
                Some(threads) => Some(SnapshotModel { objects, threads }),
            },
        }
    }
}

/// The place that is found for a name is that of a thread of this name, and no place is
/// found only where no thread has the name.
pub proof fn lemma_thread_position_finds(threads: Seq<(Seq<char>, Set<u64>)>, name: Seq<char>)
    ensures
        match thread_position(threads, name) {
            Some(j) => 0 <= j < threads.len() && threads[j].0 == name,
            None => forall|i: int| 0 <= i < threads.len() ==> (#[trigger] threads[i]).0 != name,
        },
    decreases threads.len(),
{
    if threads.len() > 0 {
        lemma_thread_position_finds(threads.drop_last(), name);
        if thread_position(threads.drop_last(), name) is None {
            assert forall|i: int| 0 <= i < threads.len() - 1 implies (#[trigger] threads[i]).0
                != name by {
                assert(threads.drop_last()[i] == threads[i]);
            }
        }
    }
}

/// Giving a thread its roots leaves the names distinct.
pub proof fn lemma_with_thread_distinct(
    threads: Seq<(Seq<char>, Set<u64>)>,
    name: Seq<char>,
    roots: Set<u64>,
)
    requires
        distinct_names(threads),
    ensures
        distinct_names(with_thread(threads, name, roots)),
{
    lemma_thread_position_finds(threads, name);
    let after = with_thread(threads, name, roots);
    assert forall|i: int, j: int| 0 <= i < j < after.len() implies after[i].0 != after[j].0 by {
        match thread_position(threads, name) {
            Some(k) => {
                assert(after[i].0 == threads[i].0 && after[j].0 == threads[j].0);
            },
            None => {
                if j < threads.len() {
                    assert(after[i] == threads[i] && after[j] == threads[j]);
                } else {
                    assert(after[i] == threads[i]);
                }
            },
        }
    }
}

/// The threads of a section have distinct names where those before it have.
pub proof fn lemma_threads_section_distinct(
    lines: Seq<Seq<char>>,
    i: int,
    threads: Seq<(Seq<char>, Set<u64>)>,
)
    requires
        distinct_names(threads),
    ensures
        threads_section(lines, i, threads) matches Some(all) ==> distinct_names(all),
    decreases lines.len() - i,
{
    if 0 <= i < lines.len() && lines[i].len() != 0 && i + 1 < lines.len() {
        match addresses_in(lines[i + 1]) {
            None => {},
            Some(roots) => {
                lemma_with_thread_distinct(threads, lines[i], roots);
                lemma_threads_section_distinct(
                    lines,
                    i + 2,
                    with_thread(threads, lines[i], roots),
                );
            },
        }
    }
}

/// The threads of a snapshot that the lines write have distinct names.
pub proof fn lemma_snapshot_names_distinct(lines: Seq<Seq<char>>)
    ensures
        snapshot_of(lines) matches Some(model) ==> distinct_names(model.threads),
{
    if lines.len() > 0 && lines[0] == "objects"@ {
        match objects_section(lines, 1, Map::empty()) {
            None => {},
            Some((objects, next)) => {
                lemma_threads_section_distinct(lines, next, Seq::empty());
            },
        }
    }
}

/// A thread that is found in the beginning of a list is found there in the whole list.
pub proof fn lemma_thread_position_stays(
    threads: Seq<(Seq<char>, Set<u64>)>,
    name: Seq<char>,
    j: int,
    k: int,
)
    requires
        0 <= j < k <= threads.len(),
        thread_position(threads.take(j), name) is None,
        threads[j].0 == name,
    ensures
        thread_position(threads.take(k), name) == Some(j),
    decreases k,
{
    assert(threads.take(k).drop_last() =~= threads.take(k - 1));
    if k > j + 1 {
        lemma_thread_position_stays(threads, name, j, k - 1);
    }
}

/// Whether the line is the given word.
fn same_text(line: &String, word: &str) -> (same: bool)
    ensures
        same == (line@ == word@),
{
    let other = String::from_str(word);
    line.eq(&other)
}

/// Gives the thread called `name` the roots `roots`: in place of those it had, or as a
/// new thread at the end.
pub fn put_thread(threads: &mut Vec<ThreadRootSet>, name: String, roots: FnvHashSet<u64>)
    ensures
        named_threads(final(threads)@) == with_thread(named_threads(old(threads)@), name@, roots@),
{
    let ghost before = named_threads(threads@);
    let mut j: usize = 0;
    while j < threads.len()
        invariant
            j <= threads@.len(),
            before == named_threads(threads@),
            before == named_threads(old(threads)@),
            thread_position(before.take(j as int), name@) is None,
        decreases threads@.len() - j,
    {
        if threads[j].name.eq(&name) {
            proof {
                assert(before[j as int].0 == threads@[j as int].name@);
                lemma_thread_position_stays(before, name@, j as int, before.len() as int);
                assert(before.take(before.len() as int) =~= before);
                assert(thread_position(before, name@) == Some(j as int));
            }
            threads.set(j, ThreadRootSet { name, roots });
            proof {
                assert(named_threads(threads@) =~= before.update(j as int, (name@, roots@)));
            }
            return ;
        }
        proof {
            assert(before[j as int].0 == threads@[j as int].name@);
            assert(before.take(j as int + 1).drop_last() =~= before.take(j as int));
            assert(before.take(j as int + 1).last() == before[j as int]);
        }
        j = j + 1;
    }
    proof {
        assert(before.take(j as int) =~= before);
    }
    threads.push(ThreadRootSet { name, roots });
    proof {
        assert(named_threads(threads@) =~= before.push((name@, roots@)));
    }
}

/// Reads a snapshot from the lines of its text form. Lines that are not the text form
/// of a snapshot are no input of this function: `try_parse` tests them.
pub fn parse(input: &Vec<String>) -> (s: Snapshot)
    requires
        snapshot_of(line_views(input@)) is Some,
    ensures
        heap_model(s.objects@) == snapshot_of(line_views(input@))->0.objects,
        named_threads(s.threads@) == snapshot_of(line_views(input@))->0.threads,
        distinct_names(named_threads(s.threads@)),
{
    match try_parse(input) {
        Ok(snapshot) => snapshot,
        Err(_) => vstd::pervasive::unreached(),
    }
}

/// Tests whether the lines are the text form of a snapshot, and reads the snapshot where
/// they are. The result is `Err` where they are not.
pub fn try_parse(input: &Vec<String>) -> (r: Result<Snapshot, BrokenInput>)
    ensures
        match snapshot_of(line_views(input@)) {
            Some(model) => r matches Ok(snapshot) && heap_model(snapshot.objects@) == model.objects
                && named_threads(snapshot.threads@) == model.threads,
            None => r is Err,
        },
        r matches Ok(snapshot) ==> distinct_names(named_threads(snapshot.threads@)),
{
    let ghost lines = line_views(input@);
    proof {
        lemma_snapshot_names_distinct(lines);
    }
    let n = input.len();
    if n == 0 || !same_text(&input[0], "objects") {
        return Err(BrokenInput);
    }
    let mut objects: FnvHashMap<u64, HeapObject> = new_address_map();
    let mut i: usize = 1;
    proof {
        assert(heap_model(objects@) =~= Map::<u64, ObjectModel>::empty());
    }
    loop
        invariant_except_break
            objects_section(lines, 1, Map::empty()) == objects_section(
                lines,
                i as int,
                heap_model(objects@),
            ),
        invariant
            fnv_modelled(),
            lines == line_views(input@),
            n == input@.len(),
            1 <= i <= n,
            lines[0] == "objects"@,
        ensures
            1 <= i <= n,
            objects_section(lines, 1, Map::empty()) == Some((heap_model(objects@), i as int)),
        decreases n - i,
    {
        if i >= n {
            break ;
        }
        proof {
            assert(lines[i as int] == input@[i as int]@);
        }
        if same_text(&input[i], "threads") || input[i].as_str().is_empty() {
            i = i + 1;
            break ;
        }
        let address = match parse_decimal(&chars_of(input[i].as_str()), u64::MAX) {
            Some(address) => address,
            None => {
                return Err(BrokenInput);
            },
        };
        if n - i < 4 {
            return Err(BrokenInput);
        }
        proof {
            assert(lines[i as int + 1] == input@[i as int + 1]@);
            assert(lines[i as int + 2] == input@[i as int + 2]@);
            assert(lines[i as int + 3] == input@[i as int + 3]@);
        }
        let size = match parse_decimal(&chars_of(input[i + 1].as_str()), 0xFFFF_FFFF) {
            Some(size) => size as u32,
            None => {
                return Err(BrokenInput);
            },
        };
        let referents = match try_parse_address_list(input[i + 2].as_str()) {
            Some(referents) => referents,
            None => {
                return Err(BrokenInput);
            },
        };
        let inbound_references = match try_parse_address_list(input[i + 3].as_str()) {
            Some(inbound_references) => inbound_references,
            None => {
                return Err(BrokenInput);
            },
        };
        let ghost before = heap_model(objects@);
        let obj = HeapObject { size, referents, inbound_references };
        objects.insert(address, obj);
        proof {
            assert(heap_model(objects@) =~= before.insert(address, obj@));
        }
        i = i + 4;
    }
    let ghost threads_start = i as int;
    let mut threads: Vec<ThreadRootSet> = Vec::new();
    proof {
        assert(named_threads(threads@) =~= Seq::<(Seq<char>, Set<u64>)>::empty());
    }
    loop
        invariant_except_break
            threads_section(lines, threads_start, Seq::empty()) == threads_section(
                lines,
                i as int,
                named_threads(threads@),
            ),
        invariant
            lines == line_views(input@),
            n == input@.len(),
            1 <= threads_start <= i <= n,
            lines[0] == "objects"@,
            objects_section(lines, 1, Map::empty()) == Some(
                (heap_model(objects@), threads_start),
            ),
        ensures
            threads_section(lines, threads_start, Seq::empty()) == Some(named_threads(threads@)),
        decreases n - i,
    {
        if i >= n {
            break ;
        }
        proof {
            assert(lines[i as int] == input@[i as int]@);
        }
        if input[i].as_str().is_empty() || n - i < 2 {
            return Err(BrokenInput);
        }
        proof {
            assert(lines[i as int + 1] == input@[i as int + 1]@);
        }
        let roots = match try_parse_address_list(input[i + 1].as_str()) {
            Some(roots) => roots,
            None => {
                return Err(BrokenInput);
            },
        };
        put_thread(&mut threads, input[i].clone(), roots);
        i = i + 2;
    }
    Ok(Snapshot { objects, threads })
}

} // verus!
