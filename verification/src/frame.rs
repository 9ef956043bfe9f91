//! Byte-stuffed frame validation and decoding. A frame is a fixed-length
//! byte sequence whose first byte is a stuffing pointer, whose last byte is
//! the zero delimiter, and whose interior bytes are either literal payload
//! or further stuffing pointers: each pointer's value is the distance to the
//! next pointer or to the terminating zero. Every pointer stands where the
//! original payload held a zero byte, so decoding restores a zero at each
//! interior pointer position.

use vstd::prelude::*;
use vstd::slice::slice_to_vec;

verus! {

/// Follows the stuffing-pointer chain of `frame` from `cursor`. Yields the
/// interior pointer positions visited, in order, when the chain reaches a
/// zero byte inside the frame; yields nothing when it runs out of bounds or
/// through position zero.
pub open spec fn chase(frame: Seq<u8>, cursor: int) -> Option<Seq<int>>
    decreases (if cursor <= frame.len() {
        frame.len() - cursor
    } else {
        0
    }),
{
    if cursor < 1 || cursor >= frame.len() {
        None
    } else if frame[cursor] == 0 {
        Some(Seq::empty())
    } else {
        match chase(frame, cursor + frame[cursor]) {
            Some(rest) => Some(seq![cursor] + rest),
            None => None,
        }
    }
}

/// A structurally well-formed stuffed frame: it ends in the zero delimiter
/// and the pointer chain started by its first byte reaches a zero byte
/// without leaving the frame.
pub open spec fn frame_valid(frame: Seq<u8>) -> bool {
    &&& frame.len() > 0
    &&& frame[frame.len() - 1] == 0
    &&& chase(frame, frame[0] as int) is Some
}

/// The interior positions of `frame` that hold stuffing pointers, in chain
/// order. Meaningful when the frame is valid.
pub open spec fn stuffed_positions(frame: Seq<u8>) -> Seq<int> {
    chase(frame, frame[0] as int)->Some_0
}

/// The payload of a valid frame: its interior bytes, with a zero restored
/// at every interior stuffing-pointer position.
pub open spec fn decode_spec(frame: Seq<u8>) -> Seq<u8> {
    Seq::new(
        (frame.len() - 2) as nat,
        |i: int|
            if stuffed_positions(frame).contains(i + 1) {
                0u8
            } else {
                frame[i + 1]
            },
    )
}

proof fn lemma_chase_some_bounds(frame: Seq<u8>, cursor: int)
    requires
        chase(frame, cursor) is Some,
    ensures
        1 <= cursor < frame.len(),
{
}

proof fn lemma_chase_step(frame: Seq<u8>, cursor: int)
    requires
        chase(frame, cursor) is Some,
        1 <= cursor < frame.len(),
        frame[cursor] != 0,
    ensures
        chase(frame, cursor + frame[cursor]) is Some,
        chase(frame, cursor)->Some_0 == seq![cursor] + chase(frame, cursor + frame[cursor])->Some_0,
{
}

proof fn lemma_chase_elements(frame: Seq<u8>, cursor: int)
    requires
        chase(frame, cursor) is Some,
    ensures
        forall|j: int|
            0 <= j < chase(frame, cursor)->Some_0.len() ==> {
                let p = #[trigger] chase(frame, cursor)->Some_0[j];
                1 <= p < frame.len() && frame[p] != 0
            },
    decreases (if cursor <= frame.len() {
        frame.len() - cursor
    } else {
        0
    }),
{
    if frame[cursor] == 0 {
    } else {
        lemma_chase_elements(frame, cursor + frame[cursor]);
        lemma_chase_step(frame, cursor);
    }
}

/// Walks the stuffing chain of `frame` from `next_value`, reporting whether
/// it terminates at a zero byte inside a frame that ends in the zero
/// delimiter. An iterative rendering of the chain walk, bounded by the
/// frame length because every pointer strictly advances the cursor.
pub fn follow_stuffed_bytes(next_value: usize, frame: &[u8]) -> (r: bool)
    ensures
        r == (frame@.len() > 0 && frame@[frame@.len() - 1] == 0 && chase(
            frame@,
            next_value as int,
        ) is Some),
{
    let n = frame.len();
    if n == 0 {
        return false;
    }
    if frame[n - 1] != 0 {
        return false;
    }
    let mut cursor = next_value;
    while 1 <= cursor && cursor < n && frame[cursor] != 0
        invariant
            n == frame@.len(),
            n > 0,
            frame@[n - 1] == 0,
            (chase(frame@, next_value as int) is Some) == (chase(frame@, cursor as int) is Some),
        decreases n - cursor,
    {
        let step = frame[cursor] as usize;
        proof {
            if cursor + step >= n {
                assert(chase(frame@, cursor + step) is None);
            }
        }
        if step < n - cursor {
            cursor = cursor + step;
        } else {
            cursor = n;
        }
    }
    if 1 <= cursor && cursor < n {
        proof {
            assert(chase(frame@, cursor as int) is Some);
        }
        true
    } else {
        proof {
            assert(chase(frame@, cursor as int) is None);
        }
        false
    }
}

/// Decides whether `frame` is a structurally well-formed stuffed frame:
/// the chain started by its first byte must reach a zero byte in bounds,
/// and the frame must end in the zero delimiter.
pub fn cobs_frame_is_valid(frame: &[u8]) -> (r: bool)
    ensures
        r == frame_valid(frame@),
{
    if frame.len() == 0 {
        return false;
    }
    follow_stuffed_bytes(frame[0] as usize, frame)
}

/// The fast path and the chain walk agree: a valid frame whose first byte
/// points directly at the terminating zero has no interior stuffing
/// pointers, so its payload is exactly its interior bytes.
pub proof fn lemma_fast_path_decode(frame: Seq<u8>)
    requires
        frame_valid(frame),
        frame[0] == frame.len() - 1,
    ensures
        decode_spec(frame) == frame.subrange(1, frame.len() - 1),
{
    lemma_chase_some_bounds(frame, frame[0] as int);
    assert(chase(frame, frame.len() - 1) == Some(Seq::<int>::empty()));
    assert(decode_spec(frame) =~= frame.subrange(1, frame.len() - 1));
}

/// Decodes a validated stuffed frame into its fixed-width payload, two
/// bytes shorter than the frame: the leading pointer and the trailing zero
/// are stripped, and a zero is restored at every interior pointer position.
/// An invalid frame is refused, handing back a copy of its raw bytes.
pub fn deserialize_cobs_frame(frame: &[u8]) -> (r: Result<Vec<u8>, Vec<u8>>)
    ensures
        frame_valid(frame@) ==> (r matches Ok(payload) && payload@ == decode_spec(frame@)),
        !frame_valid(frame@) ==> (r matches Err(raw) && raw@ == frame@),
{
    if !cobs_frame_is_valid(frame) {
        return Err(slice_to_vec(frame));
    }
    let n = frame.len();
    proof {
        lemma_chase_some_bounds(frame@, frame@[0] as int);
    }
    let ghost positions = stuffed_positions(frame@);
    if frame[0] as usize == n - 1 {
        let payload = copy_interior(frame);
        proof {
            lemma_fast_path_decode(frame@);
        }
        Ok(payload)
    } else {
        let mut indices: Vec<usize> = Vec::new();
        let mut next_index = frame[0] as usize;
        proof {
            assert(indices@.map_values(|u: usize| u as int) =~= Seq::<int>::empty());
            assert(positions =~= indices@.map_values(|u: usize| u as int) + chase(
                frame@,
                next_index as int,
            )->Some_0);
        }
        while frame[next_index] != 0
            invariant
                n == frame@.len(),
                1 <= next_index < n,
                chase(frame@, next_index as int) is Some,
                positions == indices@.map_values(|u: usize| u as int) + chase(
                    frame@,
                    next_index as int,
                )->Some_0,
            decreases n - next_index,
        {
            let step = frame[next_index] as usize;
            let ghost prev = indices@;
            proof {
                lemma_chase_step(frame@, next_index as int);
                lemma_chase_some_bounds(frame@, next_index + step);
            }
            indices.push(next_index);
            proof {
                assert(indices@.map_values(|u: usize| u as int) =~= prev.map_values(
                    |u: usize| u as int,
                ).push(next_index as int));
                assert(positions =~= indices@.map_values(|u: usize| u as int) + chase(
                    frame@,
                    next_index + step,
                )->Some_0);
            }
            next_index = next_index + step;
        }
        proof {
            assert(chase(frame@, next_index as int) == Some(Seq::<int>::empty()));
            assert(positions =~= indices@.map_values(|u: usize| u as int));
            lemma_chase_elements(frame@, frame@[0] as int);
            assert forall|j: int| 0 <= j < indices@.len() implies 1 <= #[trigger] indices@[j] < n
                - 1 by {
                assert(positions[j] == indices@[j] as int);
                assert(1 <= positions[j] < n && frame@[positions[j]] != 0);
            }
        }
        let mut payload = copy_interior(frame);
        let mut t: usize = 0;
        while t < indices.len()
            invariant
                n == frame@.len(),
                2 <= n,
                payload@.len() == n - 2,
                positions == indices@.map_values(|u: usize| u as int),
                forall|j: int| 0 <= j < indices@.len() ==> 1 <= #[trigger] indices@[j] < n - 1,
                t <= indices@.len(),
                forall|q: int|
                    0 <= q < n - 2 ==> payload@[q] == (if (exists|j: int|
                        0 <= j < t && indices@[j] == q + 1) {
                        0u8
                    } else {
                        frame@[q + 1]
                    }),
            decreases indices@.len() - t,
        {
            let p = indices[t];
            payload[p - 1] = 0;
            t = t + 1;
        }
        proof {
            assert forall|q: int| 0 <= q < n - 2 implies payload@[q] == decode_spec(frame@)[q] by {
                if positions.contains(q + 1) {
                    let j = choose|j: int| 0 <= j < positions.len() && positions[j] == q + 1;
                    assert(indices@[j] == q + 1);
                } else {
                    assert forall|j: int| 0 <= j < indices@.len() implies indices@[j] != q
                        + 1 by {
                        assert(positions[j] == indices@[j] as int);
                    }
                }
            }
            assert(payload@ =~= decode_spec(frame@));
        }
        Ok(payload)
    }
}

/// Copies the interior bytes of `frame`, dropping its first and last byte.
fn copy_interior(frame: &[u8]) -> (out: Vec<u8>)
    requires
        frame@.len() >= 2,
    ensures
        out@ == frame@.subrange(1, frame@.len() - 1),
{
    let n = frame.len();
    let mut out: Vec<u8> = Vec::new();
    let mut i: usize = 1;
    proof {
        assert(out@ =~= frame@.subrange(1, 1));
    }
    while i < n - 1
        invariant
            n == frame@.len(),
            2 <= n,
            1 <= i <= n - 1,
            out@ == frame@.subrange(1, i as int),
        decreases n - 1 - i,
    {
        let b = frame[i];
        out.push(b);
        proof {
            assert(out@ =~= frame@.subrange(1, i + 1));
        }
        i = i + 1;
    }
    out
}

} // verus!
