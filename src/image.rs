use vstd::prelude::*;

verus! {

/// The byte that fills every position of a new image.
pub const PAD_BYTE: u8 = 0xFF;

/// `length` padding bytes.
pub open spec fn padding(length: nat) -> Seq<u8> {
    Seq::new(length, |_i: int| PAD_BYTE)
}

/// What reading `data` from position `offset` to its end yields: nothing
/// when `offset` lies at or past the end.
pub open spec fn remainder(data: Seq<u8>, offset: nat) -> Seq<u8> {
    if offset < data.len() {
        data.skip(offset as int)
    } else {
        Seq::empty()
    }
}

/// `rom` after `data` is written into it from position `at`: the bytes
/// written replace those there, and the image grows where they run past
/// its end.
pub open spec fn overwrite(rom: Seq<u8>, at: nat, data: Seq<u8>) -> Seq<u8> {
    let len = if rom.len() >= at + data.len() { rom.len() } else { at + data.len() };
    Seq::new(
        len,
        |i: int|
            if at <= i < at + data.len() {
                data[i - at]
            } else {
                rom[i]
            },
    )
}

/// The image and the write position after each input in turn is written
/// at the position that the one before it left.
pub open spec fn place_all(rom: Seq<u8>, cursor: nat, inputs: Seq<(Seq<u8>, nat)>) -> (Seq<u8>, nat)
    decreases inputs.len(),
{
    if inputs.len() == 0 {
        (rom, cursor)
    } else {
        let (r, c) = place_all(rom, cursor, inputs.drop_last());
        let rem = remainder(inputs.last().0, inputs.last().1);
        (overwrite(r, c, rem), c + rem.len())
    }
}

/// The bytes that the inputs contribute, one after another: each one's
/// remainder from its offset.
pub open spec fn placed_bytes(inputs: Seq<(Seq<u8>, nat)>) -> Seq<u8>
    decreases inputs.len(),
{
    if inputs.len() == 0 {
        Seq::empty()
    } else {
        placed_bytes(inputs.drop_last()) + remainder(inputs.last().0, inputs.last().1)
    }
}

/// The contents of an input file and the position from which they are
/// read.
pub struct InputFile {
    pub data: Vec<u8>,
    pub offset: u64,
}

impl InputFile {
    pub open spec fn spec_pair(&self) -> (Seq<u8>, nat) {
        (self.data@, self.offset as nat)
    }
}

pub open spec fn input_pairs(inputs: Seq<InputFile>) -> Seq<(Seq<u8>, nat)> {
    inputs.map_values(|f: InputFile| f.spec_pair())
}

/// An image under construction, and the position where the next input is
/// written.
pub struct Context {
    pub rom: Vec<u8>,
    pub cursor: usize,
}

impl Context {
    pub open spec fn wf(&self) -> bool {
        self.cursor <= self.rom@.len()
    }

    /// A new image of `length` padding bytes; the next input goes to its
    /// start.
    pub fn new(length: u64) -> (r: Context)
        requires
            length <= usize::MAX,
        ensures
            r.wf(),
            r.rom@ == padding(length as nat),
            r.cursor == 0,
    {
        let n = length as usize;
        let mut rom: Vec<u8> = Vec::new();
        let mut i: usize = 0;
        while i < n
            invariant
                i <= n,
                rom@ == padding(i as nat),
            decreases n - i,
        {
            rom.push(PAD_BYTE);
            i = i + 1;
            assert(rom@ =~= padding(i as nat));
        }
        Context { rom, cursor: 0 }
    }

    /// Writes what `input` holds from its offset on at the current position,
    /// which then moves past the bytes written.
    pub fn write_file_to_image(&mut self, input: &InputFile)
        requires
            old(self).wf(),
        ensures
            final(self).wf(),
            final(self).rom@ == overwrite(
                old(self).rom@,
                old(self).cursor as nat,
                remainder(input.data@, input.offset as nat),
            ),
            final(self).cursor == old(self).cursor + remainder(
                input.data@,
                input.offset as nat,
            ).len(),
    {
        let ghost rom0 = self.rom@;
        let ghost at = self.cursor as nat;
        let ghost rem = remainder(input.data@, input.offset as nat);
        let len = input.data.len();
        if input.offset >= len as u64 {
            assert(overwrite(rom0, at, rem) =~= rom0);
            return;
        }
        let start = input.offset as usize;
        assert(rem =~= input.data@.skip(start as int));
        let mut j: usize = start;
        assert(overwrite(rom0, at, rem.take(0)) =~= rom0);
        while j < len
            invariant
                start <= j <= len,
                len == input.data@.len(),
                rem =~= input.data@.skip(start as int),
                at <= rom0.len(),
                self.cursor == at + (j - start),
                self.rom@ == overwrite(rom0, at, rem.take(j - start)),
            decreases len - j,
        {
            let b = input.data[j];
            let ghost k: int = j - start;
            if self.cursor < self.rom.len() {
                self.rom.set(self.cursor, b);
            } else {
                self.rom.push(b);
            }
            assert(self.rom@ =~= overwrite(rom0, at, rem.take(k + 1)));
            // The byte just written lies inside the vector, whose length is a
            // usize: the next position fits in one too.
            let written = self.rom.len();
            assert(self.cursor < written);
            self.cursor = self.cursor + 1;
            j = j + 1;
        }
        assert(rem.take(len - start) =~= rem);
    }

    /// Writes each input in turn, as `write_file_to_image` does.
    pub fn run(&mut self, inputs: &Vec<InputFile>)
        requires
            old(self).wf(),
        ensures
            final(self).wf(),
            (final(self).rom@, final(self).cursor as nat) == place_all(
                old(self).rom@,
                old(self).cursor as nat,
                input_pairs(inputs@),
            ),
    {
        let ghost rom0 = self.rom@;
        let ghost c0 = self.cursor as nat;
        let mut i: usize = 0;
        while i < inputs.len()
            invariant
                i <= inputs@.len(),
                self.wf(),
                (self.rom@, self.cursor as nat) == place_all(rom0, c0, input_pairs(inputs@.take(i as int))),
            decreases inputs@.len() - i,
        {
            self.write_file_to_image(&inputs[i]);
            assert(input_pairs(inputs@.take(i + 1)).drop_last() =~= input_pairs(inputs@.take(i as int)));
            i = i + 1;
        }
        assert(inputs@.take(i as int) =~= inputs@);
    }
}

/// Writing an empty input, from any offset, at a valid position leaves the
/// image as it was.
pub proof fn lemma_empty_input_keeps_image(rom: Seq<u8>, cursor: nat, data: Seq<u8>, offset: nat)
    requires
        cursor <= rom.len(),
        data.len() == 0,
    ensures
        overwrite(rom, cursor, remainder(data, offset)) == rom,
{
    assert(overwrite(rom, cursor, remainder(data, offset)) =~= rom);
}

/// An input whose remaining bytes run past the end of the image grows the
/// image to hold all of them; nothing is cut off.
pub proof fn lemma_write_past_end_grows(rom: Seq<u8>, cursor: nat, data: Seq<u8>, offset: nat)
    requires
        cursor <= rom.len(),
        cursor + remainder(data, offset).len() > rom.len(),
    ensures
        overwrite(rom, cursor, remainder(data, offset)).len() == cursor + remainder(
            data,
            offset,
        ).len(),
        overwrite(rom, cursor, remainder(data, offset)).len() > rom.len(),
        overwrite(rom, cursor, remainder(data, offset)).subrange(
            cursor as int,
            (cursor + remainder(data, offset).len()) as int,
        ) == remainder(data, offset),
{
    let rem = remainder(data, offset);
    assert(overwrite(rom, cursor, rem).subrange(cursor as int, (cursor + rem.len()) as int) =~= rem);
}

/// Writing a list of inputs from a valid position is writing all their
/// remainders, one after another, as one block from that position.
pub proof fn lemma_place_all_is_one_block(rom: Seq<u8>, cursor: nat, inputs: Seq<(Seq<u8>, nat)>)
    requires
        cursor <= rom.len(),
    ensures
        place_all(rom, cursor, inputs) == (
            overwrite(rom, cursor, placed_bytes(inputs)),
            cursor + placed_bytes(inputs).len(),
        ),
    decreases inputs.len(),
{
    if inputs.len() == 0 {
        assert(overwrite(rom, cursor, placed_bytes(inputs)) =~= rom);
    } else {
        let front = inputs.drop_last();
        lemma_place_all_is_one_block(rom, cursor, front);
        let p = placed_bytes(front);
        let rem = remainder(inputs.last().0, inputs.last().1);
        assert(overwrite(overwrite(rom, cursor, p), cursor + p.len(), rem) =~= overwrite(
            rom,
            cursor,
            p + rem,
        ));
    }
}

/// Inputs whose remainders together run past the end of a new image
/// replace it whole and grow it: the image is exactly those bytes, with
/// nothing cut off.
pub proof fn lemma_long_inputs_grow_image(length: nat, inputs: Seq<(Seq<u8>, nat)>)
    requires
        placed_bytes(inputs).len() > length,
    ensures
        place_all(padding(length), 0, inputs).0 == placed_bytes(inputs),
        place_all(padding(length), 0, inputs).0.len() > length,
{
    lemma_place_all_is_one_block(padding(length), 0, inputs);
    assert(overwrite(padding(length), 0, placed_bytes(inputs)) =~= placed_bytes(inputs));
}

} // verus!
