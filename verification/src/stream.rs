//! Writing a transcript to a file as one JSON array that grows as chunks
//! are transcribed, and naming the files that keep each chunk's transcript
//! beside it.
//!
//! The output file always holds a complete array of every segment written
//! so far. It is only ever changed in two ways: created holding `[]`, or
//! its last byte (the closing bracket) replaced by more text. This module
//! decides those writes; the caller performs them.
use vstd::prelude::*;

use crate::model::strings_view;
use crate::strings::{chars_of, push_char, string_from_chars};
use crate::text::{decimal, push_decimal};

verus! {

/// The texts `items` separated by commas.
pub open spec fn joined(items: Seq<Seq<char>>) -> Seq<char>
    decreases items.len(),
{
    if items.len() == 0 {
        seq![]
    } else if items.len() == 1 {
        items[0]
    } else {
        joined(items.drop_last()) + seq![','] + items.last()
    }
}

/// The JSON array whose elements are written as `items`.
pub open spec fn json_array_text(items: Seq<Seq<char>>) -> Seq<char> {
    seq!['['] + joined(items) + seq![']']
}

/// The text that follows the elements already written when `items` are
/// added: each new element, preceded by a comma unless it is the very first
/// of the array, and the closing bracket.
pub open spec fn appended_text(wrote_any: bool, items: Seq<Seq<char>>) -> Seq<char>
    decreases items.len(),
{
    if items.len() == 0 {
        seq![']']
    } else {
        let before = appended_text(wrote_any, items.drop_last()).drop_last();
        let sep = if wrote_any || items.len() > 1 {
            seq![',']
        } else {
            seq![]
        };
        before + sep + items.last() + seq![']']
    }
}

/// Index of the last `.` among the first `n` characters of `name`, or -1.
pub open spec fn last_dot(name: Seq<char>, n: int) -> int
    decreases n,
{
    if n <= 0 {
        -1
    } else if name[n - 1] == '.' {
        n - 1
    } else {
        last_dot(name, n - 1)
    }
}

/// The file name without its extension: the part before the last `.`,
/// unless that dot is the first character or there is none.
pub open spec fn file_stem_spec(name: Seq<char>) -> Seq<char> {
    let k = last_dot(name, name.len() as int);
    if k <= 0 {
        name
    } else {
        name.take(k)
    }
}

/// `n` in decimal with at least three digits.
pub open spec fn pad3(n: nat) -> Seq<char> {
    if n < 10 {
        seq!['0', '0'] + decimal(n)
    } else if n < 100 {
        seq!['0'] + decimal(n)
    } else {
        decimal(n)
    }
}

/// The name of the file that keeps chunk `index` of the transcript written
/// to the file named `name`: `output.json` gives `output.chunk_001.json`
/// for the first chunk.
pub open spec fn chunk_backup_name_spec(name: Seq<char>, index: nat) -> Seq<char> {
    file_stem_spec(name) + ".chunk_"@ + pad3(index) + ".json"@
}

/// The file name under which chunk `chunk_index` of the transcript written
/// to the file named `file_name` is kept, beside it.
pub fn chunk_backup_name(file_name: &str, chunk_index: usize) -> (r: String)
    ensures
        r@ == chunk_backup_name_spec(file_name@, chunk_index as nat),
{
    let chars = chars_of(file_name);
    let mut k: usize = chars.len();
    while k > 0 && chars[k - 1] != '.'
        invariant
            k <= chars.len(),
            chars@ == file_name@,
            last_dot(chars@, chars.len() as int) == last_dot(chars@, k as int),
        decreases k,
    {
        k = k - 1;
    }
    proof {
        if k > 0 {
            assert(last_dot(chars@, k as int) == k - 1);
        }
    }
    let stem_end = if k > 1 {
        k - 1
    } else {
        chars.len()
    };
    let mut out = string_from_chars(&chars, 0, stem_end);
    assert(chars@.subrange(0, chars.len() as int) =~= chars@);
    assert(chars@.subrange(0, stem_end as int) =~= file_stem_spec(chars@));
    out.append(".chunk_");
    if chunk_index < 10 {
        push_char(&mut out, '0');
        push_char(&mut out, '0');
    } else if chunk_index < 100 {
        push_char(&mut out, '0');
    }
    push_decimal(&mut out, chunk_index as u64);
    out.append(".json");
    proof {
        reveal_strlit(".chunk_");
        reveal_strlit(".json");
    }
    assert(out@ =~= chunk_backup_name_spec(file_name@, chunk_index as nat));
    out
}

/// One write to the file.
#[derive(Debug, Clone, PartialEq, Eq)]
pub enum StreamWrite {
    /// Nothing to write.
    Nothing,
    /// Create the file holding `[]`, then replace its last byte by the text.
    Create(String),
    /// Replace the file's last byte by the text.
    Extend(String),
}

/// The file's text after `write` is applied to a file holding `content`.
pub open spec fn applied(content: Seq<char>, write: StreamWrite) -> Seq<char> {
    match write {
        StreamWrite::Nothing => content,
        StreamWrite::Create(tail) => seq!['['] + tail@,
        StreamWrite::Extend(tail) => content.drop_last() + tail@,
    }
}

/// `write` is the write that adds the batch of elements `batch` to a file
/// that exists (`started`) or not: none for an empty batch; otherwise the
/// file is created unless it exists, and its last byte is replaced by the
/// batch's text and the closing bracket.
pub open spec fn is_write_for(write: StreamWrite, started: bool, batch: Seq<Seq<char>>) -> bool {
    if batch.len() == 0 {
        write == StreamWrite::Nothing
    } else {
        match write {
            StreamWrite::Create(tail) => !started && tail@ == appended_text(false, batch),
            StreamWrite::Extend(tail) => started && tail@ == appended_text(true, batch),
            StreamWrite::Nothing => false,
        }
    }
}

/// The batches one after the other.
pub open spec fn flatten(batches: Seq<Seq<Seq<char>>>) -> Seq<Seq<char>>
    decreases batches.len(),
{
    if batches.len() == 0 {
        seq![]
    } else {
        flatten(batches.drop_last()) + batches.last()
    }
}

/// The file's text after `writes`, one after the other, starting from no file.
pub open spec fn file_after(writes: Seq<StreamWrite>) -> Seq<char>
    decreases writes.len(),
{
    if writes.len() == 0 {
        seq![]
    } else {
        applied(file_after(writes.drop_last()), writes.last())
    }
}

/// The array of `items`, or nothing when there are none.
pub open spec fn array_or_nothing(items: Seq<Seq<char>>) -> Seq<char> {
    if items.len() > 0 {
        json_array_text(items)
    } else {
        seq![]
    }
}

/// Streaming batches of elements: after the writes for any series of
/// batches, starting from no file, the file holds one JSON array of every
/// element of every batch in order; when all batches were empty, no write
/// was made at all.
pub proof fn lemma_stream_file_holds_everything(
    batches: Seq<Seq<Seq<char>>>,
    writes: Seq<StreamWrite>,
)
    requires
        writes.len() == batches.len(),
        forall|i: int|
            0 <= i < batches.len() ==> is_write_for(
                #[trigger] writes[i],
                flatten(batches.take(i)).len() > 0,
                batches[i],
            ),
    ensures
        file_after(writes) == array_or_nothing(flatten(batches)),
        flatten(batches).len() == 0 ==> forall|i: int|
            0 <= i < writes.len() ==> #[trigger] writes[i] == StreamWrite::Nothing,
    decreases batches.len(),
{
    let n = batches.len() as int;
    if n > 0 {
        let bs = batches.take(n - 1);
        let ws = writes.take(n - 1);
        assert forall|i: int| 0 <= i < bs.len() implies is_write_for(
            #[trigger] ws[i],
            flatten(bs.take(i)).len() > 0,
            bs[i],
        ) by {
            assert(bs.take(i) =~= batches.take(i));
            assert(is_write_for(writes[i], flatten(batches.take(i)).len() > 0, batches[i]));
        }
        lemma_stream_file_holds_everything(bs, ws);
        assert(batches.drop_last() =~= bs);
        assert(writes.drop_last() =~= ws);
        assert(batches.take(n - 1) =~= bs);
        let f = flatten(bs);
        let b = batches.last();
        let w = writes.last();
        assert(is_write_for(writes[n - 1], flatten(batches.take(n - 1)).len() > 0, batches[n - 1]));
        assert(flatten(batches) == f + b);
        if b.len() == 0 {
            assert(f + b =~= f);
        } else if f.len() == 0 {
            assert(f + b =~= b);
            assert(joined(f) =~= Seq::<char>::empty());
            lemma_appended_text(f, b);
            assert(seq!['['] + joined(f) + appended_text(false, b) =~= seq!['['] + appended_text(
                false,
                b,
            ));
        } else {
            lemma_appended_text(f, b);
            assert(json_array_text(f).drop_last() =~= seq!['['] + joined(f));
        }
        if flatten(batches).len() == 0 {
            assert forall|i: int| 0 <= i < writes.len() implies #[trigger] writes[i]
                == StreamWrite::Nothing by {
                if i < n - 1 {
                    assert(ws[i] == writes[i]);
                }
            }
        }
    }
}

/// A JSON array being written to a file, one batch of elements at a time.
pub struct JsonArrayStream {
    started: bool,
    items: Ghost<Seq<Seq<char>>>,
}

proof fn lemma_appended_text(written: Seq<Seq<char>>, items: Seq<Seq<char>>)
    ensures
        seq!['['] + joined(written) + appended_text(written.len() > 0, items) == json_array_text(
            written + items,
        ),
    decreases items.len(),
{
    if items.len() == 0 {
        assert(written + items =~= written);
    } else {
        let rest = items.drop_last();
        lemma_appended_text(written, rest);
        let prev = appended_text(written.len() > 0, rest);
        let all = written + items;
        assert(all.drop_last() =~= written + rest);
        assert(all.last() == items.last());
        // `prev` ends with the closing bracket
        assert(prev.len() > 0 && prev.last() == ']') by {
            if rest.len() > 0 {
                assert(prev == appended_text(written.len() > 0, rest.drop_last()).drop_last()
                    + (if written.len() > 0 || rest.len() > 1 {
                    seq![',']
                } else {
                    seq![]
                }) + rest.last() + seq![']']);
            }
        }
        let body = seq!['['] + joined(written) + prev.drop_last();
        let lhs = seq!['['] + joined(written) + prev;
        assert(lhs.drop_last() =~= body);
        assert(json_array_text(written + rest).drop_last() =~= seq!['['] + joined(written + rest));
        let sep = if written.len() > 0 || items.len() > 1 {
            seq![',']
        } else {
            seq![]
        };
        assert(appended_text(written.len() > 0, items) == prev.drop_last() + sep + items.last()
            + seq![']']);
        if all.len() == 1 {
            assert(written.len() == 0 && rest.len() == 0);
            assert(joined(written + rest) =~= seq![]);
            assert(joined(all) == all[0]);
            assert(all[0] == items.last());
        } else {
            assert(joined(all) == joined(all.drop_last()) + seq![','] + all.last());
        }
        assert(body == seq!['['] + joined(written + rest));
        assert(seq!['['] + joined(written) + appended_text(written.len() > 0, items) =~= body + sep
            + items.last() + seq![']']);
        assert(json_array_text(all) =~= seq!['['] + joined(written + rest) + sep + items.last()
            + seq![']']);
    }
}

impl JsonArrayStream {
    /// The file exists exactly when some element has been written.
    #[verifier::type_invariant]
    spec fn created_once_written(self) -> bool {
        self.started == (self.items@.len() > 0)
    }

    /// Whether the file has been created.
    pub closed spec fn spec_started(&self) -> bool {
        self.started
    }

    /// The elements written so far.
    pub closed spec fn spec_items(&self) -> Seq<Seq<char>> {
        self.items@
    }

    /// What the file holds: nothing before it is created, then the array of
    /// every element written so far.
    pub open spec fn content(&self) -> Seq<char> {
        if self.spec_started() {
            json_array_text(self.spec_items())
        } else {
            seq![]
        }
    }

    /// A stream that has written nothing and created no file yet.
    pub fn new() -> (r: Self)
        ensures
            !r.spec_started(),
            r.spec_items() == Seq::<Seq<char>>::empty(),
    {
        JsonArrayStream { started: false, items: Ghost(Seq::empty()) }
    }

    /// The write that adds the elements `items` (each already written as
    /// JSON) to the array. No elements, no write; otherwise the file is
    /// created first if it does not exist yet. Either way the file then
    /// holds the array of all elements written so far.
    pub fn append(&mut self, items: &Vec<String>) -> (w: StreamWrite)
        ensures
            items.len() == 0 ==> w == StreamWrite::Nothing && final(self).spec_items() == old(
                self,
            ).spec_items() && final(self).spec_started() == old(self).spec_started(),
            items.len() > 0 ==> final(self).spec_started() && final(self).spec_items() == old(
                self,
            ).spec_items() + strings_view(items@),
            items.len() > 0 ==> (w is Create <==> !old(self).spec_started()),
            is_write_for(w, old(self).spec_started(), strings_view(items@)),
            final(self).content() == applied(old(self).content(), w),
    {
        if items.len() == 0 {
            return StreamWrite::Nothing;
        }
        proof {
            use_type_invariant(&*self);
        }
        let ghost written = self.items@;
        let wrote_any = self.started;
        let mut tail = String::new();
        let mut i: usize = 0;
        proof {
            assert(strings_view(items@).take(0) =~= Seq::<Seq<char>>::empty());
        }
        while i < items.len()
            invariant
                i <= items.len(),
                wrote_any == (written.len() > 0),
                tail@ == appended_text(wrote_any, strings_view(items@).take(i as int)).drop_last(),
            decreases items.len() - i,
        {
            let ghost prev = strings_view(items@).take(i as int);
            let ghost next = strings_view(items@).take(i + 1);
            assert(next.drop_last() =~= prev);
            assert(next.last() == items@[i as int]@);
            if wrote_any || i > 0 {
                crate::strings::push_char(&mut tail, ',');
            }
            tail.append(items[i].as_str());
            proof {
                let sep = if wrote_any || next.len() > 1 {
                    seq![',']
                } else {
                    seq![]
                };
                assert(appended_text(wrote_any, next) == appended_text(wrote_any, prev).drop_last()
                    + sep + next.last() + seq![']']);
                assert(appended_text(wrote_any, next).drop_last() =~= appended_text(
                    wrote_any,
                    prev,
                ).drop_last() + sep + next.last());
            }
            i = i + 1;
        }
        crate::strings::push_char(&mut tail, ']');
        let ghost added = strings_view(items@);
        proof {
            assert(added.take(items.len() as int) =~= added);
            lemma_appended_text(written, added);
            assert(appended_text(wrote_any, added).len() > 0 && appended_text(wrote_any, added).last() == ']');
            assert(tail@ =~= appended_text(wrote_any, added));
        }
        let was_started = self.started;
        *self = JsonArrayStream { started: true, items: Ghost(written + added) };
        if was_started {
            proof {
                let old_content = json_array_text(written);
                assert(old_content.drop_last() =~= seq!['['] + joined(written));
            }
            StreamWrite::Extend(tail)
        } else {
            assert(written + added =~= added);
            StreamWrite::Create(tail)
        }
    }
}

} // verus!
