//! The log: every record of a file, in file order.

use vstd::prelude::*;

use crate::record::{
    decode, display_fields, encodable, encode, indicator, lemma_decode_encode, DecodeError, Record,
    RecordModel,
};
use crate::text::{
    join_with, lemma_join_free, lemma_split_append_free, lemma_split_concat, lemma_split_nonempty,
    split_chars, split_on, views,
};

verus! {

/// The records of a log file, in the order of its lines.
pub struct Log {
    pub records: Vec<Record>,
}

/// The models of a sequence of records.
pub open spec fn models(v: Seq<Record>) -> Seq<RecordModel> {
    Seq::new(v.len(), |i: int| v[i]@)
}

impl View for Log {
    type V = Seq<RecordModel>;

    open spec fn view(&self) -> Seq<RecordModel> {
        models(self.records@)
    }
}

/// The lines of a text: the pieces between newlines, without the empty piece
/// that a final newline leaves.
pub open spec fn text_lines(text: Seq<char>) -> Seq<Seq<char>> {
    let pieces = split_on(text, '\n');
    if pieces.last().len() == 0 {
        pieces.drop_last()
    } else {
        pieces
    }
}

/// The records of the lines, or the error of the first line that holds none.
pub open spec fn decode_all(lines: Seq<Seq<char>>) -> Result<Seq<RecordModel>, DecodeError>
    decreases lines.len(),
{
    if lines.len() == 0 {
        Ok(Seq::<RecordModel>::empty())
    } else {
        match decode_all(lines.drop_last()) {
            Err(e) => Err(e),
            Ok(prev) => match decode(lines.last()) {
                Ok(r) => Ok(prev.push(r)),
                Err(e) => Err(e),
            },
        }
    }
}

/// The text of a log: the line of each record, each ended by a newline.
pub open spec fn encode_all(records: Seq<RecordModel>) -> Seq<char>
    decreases records.len(),
{
    if records.len() == 0 {
        Seq::<char>::empty()
    } else {
        encode_all(records.drop_last()) + encode(records.last()).push('\n')
    }
}

impl Log {
    /// An empty log.
    pub fn new() -> (l: Log)
        ensures
            l@.len() == 0,
    {
        Log { records: Vec::new() }
    }

    /// Reads a log from the whole text of its file. Every line is decoded; the
    /// first one that holds no record makes the whole load fail.
    pub fn from_text(text: &str) -> (r: Result<Log, DecodeError>)
        ensures
            match r {
                Ok(l) => decode_all(text_lines(text@)) == Ok::<Seq<RecordModel>, DecodeError>(l@),
                Err(e) => decode_all(text_lines(text@)) == Err::<Seq<RecordModel>, DecodeError>(e),
            },
    {
        let mut lines = split_chars(text, '\n');
        proof {
            lemma_split_nonempty(text@, '\n');
        }
        let last = lines.len() - 1;
        if lines[last].unicode_len() == 0 {
            lines.pop();
            proof {
                assert(views(lines@) =~= split_on(text@, '\n').drop_last());
            }
        }
        assert(views(lines@) == text_lines(text@));
        let mut out = Log::new();
        let mut i: usize = 0;
        proof {
            assert(views(lines@).take(0) =~= Seq::<Seq<char>>::empty());
            assert(out@ =~= Seq::<RecordModel>::empty());
        }
        while i < lines.len()
            invariant
                i <= lines@.len(),
                views(lines@) == text_lines(text@),
                decode_all(views(lines@).take(i as int)) == Ok::<Seq<RecordModel>, DecodeError>(out@),
            decreases lines@.len() - i,
        {
            let rec = Record::from_line(lines[i].as_str());
            proof {
                let p = views(lines@).take(i + 1);
                assert(p.drop_last() =~= views(lines@).take(i as int));
                assert(p.last() == lines@[i as int]@);
            }
            match rec {
                Ok(rec) => {
                    let ghost before = out@;
                    out.records.push(rec);
                    proof {
                        assert(out@ =~= before.push(rec@));
                    }
                },
                Err(e) => {
                    proof {
                        let p = views(lines@).take(i + 1);
                        assert(decode(p.last()) == Err::<RecordModel, DecodeError>(e));
                        assert(decode_all(p) == Err::<Seq<RecordModel>, DecodeError>(e));
                        lemma_decode_all_err(views(lines@), (i + 1) as int);
                        assert(views(lines@).take(lines@.len() as int) =~= views(lines@));
                    }
                    return Err(e);
                },
            }
            i = i + 1;
        }
        proof {
            assert(views(lines@).take(lines@.len() as int) =~= views(lines@));
        }
        Ok(out)
    }

    /// The text of the log's file: one line per record, in order.
    pub fn to_text(&self) -> (r: String)
        ensures
            r@ == encode_all(self@),
    {
        let mut out = String::new();
        let mut i: usize = 0;
        proof {
            assert(models(self.records@.take(0)) =~= Seq::<RecordModel>::empty());
        }
        while i < self.records.len()
            invariant
                i <= self.records@.len(),
                out@ == encode_all(models(self.records@.take(i as int))),
            decreases self.records@.len() - i,
        {
            let line = self.records[i].to_string();
            let ghost before = out@;
            out.append(line.as_str());
            proof {
                reveal_strlit("\n");
            }
            out.append("\n");
            proof {
                let m = models(self.records@.take(i + 1));
                assert(m.drop_last() =~= models(self.records@.take(i as int)));
                assert(m.last() == self.records@[i as int]@);
                assert(out@ =~= before + encode(m.last()).push('\n'));
            }
            i = i + 1;
        }
        proof {
            assert(self.records@.take(self.records@.len() as int) =~= self.records@);
        }
        out
    }
}

/// A record that a log file can hold and give back: its line brings it back,
/// and no field of it holds a newline.
pub open spec fn storable(r: RecordModel) -> bool {
    &&& encodable(r)
    &&& forall|i: int|
        0 <= i < display_fields(r).len() ==> !(#[trigger] display_fields(r)[i]).contains('\n')
}

/// The lines of the records.
pub open spec fn encoded_lines(records: Seq<RecordModel>) -> Seq<Seq<char>> {
    Seq::new(records.len(), |i: int| encode(records[i]))
}

proof fn lemma_encode_no_newline(r: RecordModel)
    requires
        storable(r),
    ensures
        !encode(r).contains('\n'),
{
    lemma_join_free(display_fields(r), ' ', '\n');
    let e = encode(r);
    let body = join_with(display_fields(r), ' ');
    if e.contains('\n') {
        let k = choose|k: int| 0 <= k < e.len() && e[k] == '\n';
        assert(k >= 2 ==> body[k - 2] == '\n');
        assert(indicator(r) != '\n');
    }
}

proof fn lemma_split_encode_all(records: Seq<RecordModel>)
    requires
        forall|j: int| 0 <= j < records.len() ==> storable(#[trigger] records[j]),
    ensures
        split_on(encode_all(records), '\n') == encoded_lines(records).push(Seq::<char>::empty()),
    decreases records.len(),
{
    if records.len() == 0 {
        assert(encode_all(records) =~= Seq::<char>::empty());
        assert(encoded_lines(records).push(Seq::<char>::empty()) =~= seq![Seq::<char>::empty()]);
    } else {
        let init = records.drop_last();
        assert forall|j: int| 0 <= j < init.len() implies storable(#[trigger] init[j]) by {
            assert(init[j] == records[j]);
        }
        lemma_split_encode_all(init);
        let e = encode(records.last());
        assert(storable(records[records.len() - 1]));
        lemma_encode_no_newline(records.last());
        let prefix = encode_all(init);
        lemma_split_append_free(prefix, e, '\n');
        lemma_split_concat(prefix + e, Seq::<char>::empty(), '\n');
        assert((prefix + e).push('\n') + Seq::<char>::empty() =~= encode_all(records));
        assert(Seq::<char>::empty() + e =~= e);
        assert(encoded_lines(records).push(Seq::<char>::empty()) =~= encoded_lines(init).push(
            e,
        ).push(Seq::<char>::empty()));
    }
}

proof fn lemma_decode_encoded_lines(records: Seq<RecordModel>)
    requires
        forall|j: int| 0 <= j < records.len() ==> storable(#[trigger] records[j]),
    ensures
        decode_all(encoded_lines(records)) == Ok::<Seq<RecordModel>, DecodeError>(records),
    decreases records.len(),
{
    if records.len() == 0 {
        assert(encoded_lines(records) =~= Seq::<Seq<char>>::empty());
        assert(records =~= Seq::<RecordModel>::empty());
    } else {
        let init = records.drop_last();
        assert forall|j: int| 0 <= j < init.len() implies storable(#[trigger] init[j]) by {
            assert(init[j] == records[j]);
        }
        lemma_decode_encoded_lines(init);
        assert(storable(records[records.len() - 1]));
        lemma_decode_encode(records.last());
        assert(encoded_lines(records).drop_last() =~= encoded_lines(init));
        assert(init.push(records.last()) =~= records);
    }
}

/// Loading the text of a log gives its records back, when no field of a
/// record holds a newline and each record's line brings it back (the fields of
/// a header, a contact or a setting hold no space; a header or a contact has a
/// field).
pub proof fn lemma_load_persisted(records: Seq<RecordModel>)
    requires
        forall|j: int| 0 <= j < records.len() ==> storable(#[trigger] records[j]),
    ensures
        decode_all(text_lines(encode_all(records))) == Ok::<Seq<RecordModel>, DecodeError>(records),
{
    lemma_split_encode_all(records);
    let lines = encoded_lines(records);
    assert(lines.push(Seq::<char>::empty()).drop_last() =~= lines);
    lemma_decode_encoded_lines(records);
}

/// Once a prefix of the lines fails to decode, every longer prefix fails with
/// the same error.
proof fn lemma_decode_all_err(lines: Seq<Seq<char>>, k: int)
    requires
        0 <= k <= lines.len(),
        decode_all(lines.take(k)) is Err,
    ensures
        decode_all(lines) == decode_all(lines.take(k)),
    decreases lines.len() - k,
{
    if k < lines.len() {
        let p = lines.take(k + 1);
        assert(p.drop_last() =~= lines.take(k));
        lemma_decode_all_err(lines, k + 1);
    } else {
        assert(lines.take(k) =~= lines);
    }
}

} // verus!
