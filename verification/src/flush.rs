//! Turning the write buffer into a run.
use vstd::prelude::*;
use crate::block;
use crate::bloom;
use crate::bloom::{RunFilter, RunFilterBuilder};
use crate::error::{Error, Result};
use crate::index::FOOTER_LEN;
use crate::keys;
use crate::layout;
use crate::model;
use crate::record;
use crate::record::{Entry, Item};
use crate::sstable;
use crate::sstable::SsTable;
use crate::writer;
use crate::writer::SsTableWriter;

verus! {

/// `error` is why a run of these entries cannot be written: one of them cannot be, or the
/// run would be too large.
pub open spec fn build_fault(es: Seq<Entry>, error: Error) -> bool {
    ||| exists|i: int| 0 <= i < es.len() && writer::entry_fault(#[trigger] es[i]) == Some(error)
    ||| error == writer::oversize() && exists|k: int|
        0 <= k <= es.len() && writer::overfull(#[trigger] es.take(k))
}

/// The filter, if there is one, admits the key of every entry.
pub open spec fn admits_all(filter: Option<RunFilter>, es: Seq<Entry>) -> bool {
    filter matches Some(f) ==> f.wf() && forall|i: int|
        0 <= i < es.len() ==> f.admitted().contains((#[trigger] es[i]).0)
}

/// The filter, if there is one, has these dimensions.
pub open spec fn sized(filter: Option<RunFilter>, dimensions: Option<(u64, u32)>) -> bool {
    filter matches Some(f) ==> dimensions == Some((f.parts().1, f.parts().2))
}

/// Nothing is marked in the filter, if there is one, but the probes of `count` keys.
pub open spec fn marked_by(filter: Option<RunFilter>, count: nat) -> bool {
    filter matches Some(f) ==> bloom::marked(
        bloom::clear_words(f.parts().1),
        f.parts().0,
        f.parts().1,
        count * f.parts().2 as nat,
    )
}

/// A builder that has marked the probes of `count` keys so far.
pub open spec fn marks_of(builder: RunFilterBuilder, count: nat) -> bool {
    bloom::marked(
        bloom::clear_words(builder.dimensions().0),
        builder.words(),
        builder.dimensions().0,
        count * builder.dimensions().1 as nat,
    )
}

/// A builder that has marked nothing has marked the probes of no key.
pub proof fn lemma_marks_start(builder: RunFilterBuilder)
    requires
        builder.words() == bloom::clear_words(builder.dimensions().0),
    ensures
        marks_of(builder, 0),
{
    bloom::lemma_unmarked(builder.words(), builder.dimensions().0);
    let probes = builder.dimensions().1 as nat;
    assert(0 * probes == 0) by (nonlinear_arith);
}

/// Recording a key marks its probes besides those of the keys before it.
pub proof fn lemma_marks_step(was: RunFilterBuilder, now: RunFilterBuilder, count: nat)
    requires
        marks_of(was, count),
        now.dimensions() == was.dimensions(),
        bloom::marked(
            was.words(),
            now.words(),
            was.dimensions().0,
            was.dimensions().1 as nat,
        ),
    ensures
        marks_of(now, count + 1),
{
    let probes = was.dimensions().1 as nat;
    bloom::lemma_marked_on(
        bloom::clear_words(was.dimensions().0),
        was.words(),
        now.words(),
        was.dimensions().0,
        count * probes,
        probes,
    );
    assert((count + 1) * probes == count * probes + probes) by (nonlinear_arith);
}

/// Writes a run of these items, and a filter over their keys.
pub fn build_run(items: &Vec<Item>, dimensions: Option<(u64, u32)>) -> (built: Result<
    (Vec<u8>, Option<RunFilter>),
>)
    requires
        model::ascending(record::entries(items@)),
    ensures
        match built {
            Ok((bytes, filter)) => {
                &&& bytes@ == layout::run_bytes(record::entries(items@))
                &&& block::all_fit(record::entries(items@))
                &&& filter is Some <==> items@.len() > 0 && bloom::sizeable(dimensions)
                &&& sized(filter, dimensions)
                &&& admits_all(filter, record::entries(items@))
                &&& marked_by(filter, items@.len())
            },
            Err(e) => build_fault(record::entries(items@), e),
        },
{
    let ghost es = record::entries(items@);
    let mut bytes: Vec<u8> = Vec::new();
    let mut out = SsTableWriter::create(&mut bytes);
    let mut filter = bloom::builder(items.len(), dimensions);
    let ghost active = filter.active();
    let mut i: usize = 0;
    proof {
        assert(es.take(0) =~= seq![]);
        assert(bytes@ =~= layout::written(es.take(0)));
        if active {
            lemma_marks_start(filter);
        }
    }
    while i < items.len()
        invariant
            i <= items@.len(),
            es == record::entries(items@),
            model::ascending(es),
            out.wf(),
            out@ == es.take(i as int),
            bytes@ == layout::written(es.take(i as int)),
            filter.wf(),
            filter.active() == active,
            active ==> dimensions == Some(filter.dimensions()),
            active ==> marks_of(filter, i as nat),
            active ==> forall|k: int| 0 <= k < i ==> filter.admitted().contains((#[trigger] es[k]).0),
        decreases items@.len() - i,
    {
        proof {
            assert(es[i as int] == record::entry(items@[i as int]));
            assert(es.take(i + 1) =~= es.take(i as int).push(es[i as int]));
            if i > 0 {
                assert(keys::key_lt(es[i - 1].0, es[i as int].0));
                assert(es.take(i as int).last() == es[i - 1]);
            }
            layout::lemma_written_push(es.take(i as int), es[i as int]);
        }
        match out.push(items[i].0.as_slice(), &items[i].1, &mut bytes) {
            Ok(_) => {},
            Err(e) => {
                return Err(e);
            },
        }
        let ghost so_far = filter;
        let ghost before = filter.admitted();
        filter.add(items[i].0.as_slice());
        proof {
            if active {
                lemma_marks_step(so_far, filter, i as nat);
                assert forall|k: int| 0 <= k < i + 1 implies filter.admitted().contains(
                    (#[trigger] es[k]).0,
                ) by {
                    assert(before.insert(es[i as int].0).contains(es[k].0));
                }
            }
        }
        i += 1;
    }
    proof {
        assert(es.take(i as int) =~= es);
        out.lemma_accepted();
        layout::lemma_written_tail(es);
    }
    match out.finish(&mut bytes) {
        Ok(_) => {},
        Err(e) => {
            return Err(e);
        },
    }
    Ok((bytes, filter.finish()))
}

/// Opens a run that was written from `es`, and attaches its filter. If the file holds what
/// was written, the run holds `es`, and opening it can only fail by a failed read.
pub fn open_built<R>(
    name: String,
    run_id: u64,
    file_len: u64,
    filter: Option<RunFilter>,
    read: &R,
) -> (table: Result<SsTable>) where
    R: Fn(u64, u64, usize) -> std::result::Result<Vec<u8>, std::io::Error>,

    requires
        sstable::total(*read),
        filter matches Some(f) ==> f.wf(),
    ensures
        match table {
            Ok(t) => {
                &&& t.wf()
                &&& t.id() == run_id
                &&& t.label() == name@
                &&& t.filtered() == filter
                &&& sstable::opens_to(*read, run_id, file_len, Ok(t@))
            },
            Err(e) => sstable::opens_to(*read, run_id, file_len, Err(e)),
        },
        forall|es: Seq<Entry>|
            #![trigger layout::run_bytes(es)]
            sstable::reads_image(*read, run_id, layout::run_bytes(es)) && layout::run_bytes(es).len()
                == file_len && model::ascending(es) && block::all_fit(es)
                && layout::run_bytes(es).len() <= usize::MAX ==> match table {
                Ok(t) => {
                    &&& t@ == layout::table_for(es)
                    &&& sstable::intact(t@, layout::run_bytes(es))
                    &&& sstable::contents(t@, layout::run_bytes(es)) == es
                    &&& admits_all(filter, es) ==> t.covered(layout::run_bytes(es))
                },
                Err(e) => open_fault(*read, run_id, e),
            },
{
    let opened = SsTable::open(name, run_id, file_len, read);
    proof {
        assert forall|es: Seq<Entry>|
            #![trigger layout::run_bytes(es)]
            sstable::reads_image(*read, run_id, layout::run_bytes(es)) && layout::run_bytes(es).len()
                == file_len && model::ascending(es) && block::all_fit(es)
                && layout::run_bytes(es).len() <= usize::MAX implies match opened {
            Ok(t) => {
                &&& t@ == layout::table_for(es)
                &&& sstable::intact(t@, layout::run_bytes(es))
                &&& sstable::contents(t@, layout::run_bytes(es)) == es
            },
            Err(e) => open_fault(*read, run_id, e),
        } by {
            layout::lemma_index_within(es);
            layout::lemma_run_roundtrip(es);
        }
    }
    match opened {
        Ok(t) => {
            let mut table = t;
            table.attach_filter(filter);
            proof {
                assert forall|es: Seq<Entry>|
                    #![trigger layout::run_bytes(es)]
                    sstable::contents(table@, layout::run_bytes(es)) == es && admits_all(
                        filter,
                        es,
                    ) implies table.covered(layout::run_bytes(es)) by {
                    assert forall|key: Seq<u8>| #[trigger]
                        model::mentions(
                            sstable::contents(table@, layout::run_bytes(es)),
                            key,
                        ) implies table.admits(key) by {
                        let i = model::position(es, key);
                        assert(es[i].0 == key);
                    }
                }
            }
            Ok(table)
        },
        Err(e) => Err(e),
    }
}

/// `error` is what a failed read of a run's footer or index is reported as.
pub open spec fn open_fault<R>(read: R, run_id: u64, error: Error) -> bool where
    R: Fn(u64, u64, usize) -> std::result::Result<Vec<u8>, std::io::Error>,
 {
    ||| exists|offset: u64| #[trigger]
        sstable::read_fault(
            read,
            run_id,
            offset,
            FOOTER_LEN as usize,
            "read run footer",
            error,
        )
    ||| exists|offset: u64, len: usize| #[trigger]
        sstable::read_fault(read, run_id, offset, len, "read run index", error)
}

} // verus!
