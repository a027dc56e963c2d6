//! Blocks of decoded audio and the facts that describe an opened file.

use vstd::prelude::*;

verus! {

/// The contents of a list of channels.
pub open spec fn channels_view<T>(channels: Seq<Vec<T>>) -> Seq<Seq<T>> {
    Seq::new(channels.len(), |c: int| channels[c]@)
}

/// Channel data with `n` frames of `source`, from its frame `start` on, put at the end of every
/// channel that `source` has too. Any further channel of `data` stays as it is.
pub open spec fn appended<T>(data: Seq<Seq<T>>, source: Seq<Seq<T>>, start: int, n: int) -> Seq<
    Seq<T>,
> {
    Seq::new(
        data.len(),
        |c: int|
            if c < source.len() {
                data[c] + source[c].subrange(start, start + n)
            } else {
                data[c]
            },
    )
}

/// A block of decoded audio: the samples of each channel.
pub struct DataBlock<T> {
    pub block: Vec<Vec<T>>,
}

impl<T> View for DataBlock<T> {
    type V = Seq<Seq<T>>;

    open spec fn view(&self) -> Seq<Seq<T>> {
        channels_view(self.block@)
    }
}

impl<T: Copy> DataBlock<T> {
    /// A block of `num_channels` empty channels, each with room for `block_size` frames.
    pub fn new(num_channels: usize, block_size: usize) -> (data_block: Self)
        ensures
            data_block@ == Seq::new(num_channels as nat, |c: int| Seq::<T>::empty()),
    {
        let mut block: Vec<Vec<T>> = Vec::with_capacity(num_channels);
        let mut c: usize = 0;
        while c < num_channels
            invariant
                c <= num_channels,
                block.len() == c,
                forall|i: int| 0 <= i < c ==> (#[trigger] block[i])@ == Seq::<T>::empty(),
            decreases num_channels - c,
        {
            block.push(Vec::with_capacity(block_size));
            c += 1;
        }
        DataBlock { block }
    }

    /// Empties every channel.
    pub fn clear(&mut self)
        ensures
            final(self)@ == Seq::new(old(self)@.len(), |c: int| Seq::<T>::empty()),
    {
        let mut c: usize = 0;
        while c < self.block.len()
            invariant
                c <= self.block.len(),
                self.block.len() == old(self)@.len(),
                forall|i: int| 0 <= i < c ==> (#[trigger] self.block[i])@ == Seq::<T>::empty(),
            decreases self.block.len() - c,
        {
            self.block[c].clear();
            c += 1;
        }
    }

    /// Puts `n` frames of `source`, from its frame `start` on, at the end of the block, channel
    /// by channel.
    pub(crate) fn append(&mut self, source: &Vec<Vec<T>>, start: usize, n: usize)
        requires
            forall|c: int| 0 <= c < source.len() ==> start + n <= (#[trigger] source[c]).len(),
        ensures
            final(self)@ == appended(old(self)@, channels_view(source@), start as int, n as int),
    {
        let ghost before = self@;
        let mut c: usize = 0;
        while c < self.block.len() && c < source.len()
            invariant
                c <= self.block.len(),
                c <= source.len(),
                self.block.len() == before.len(),
                before == old(self)@,
                forall|i: int| 0 <= i < source.len() ==> start + n <= (#[trigger] source[i]).len(),
                forall|i: int|
                    0 <= i < c ==> (#[trigger] self.block[i])@ == before[i] + source[i]@.subrange(
                        start as int,
                        start + n,
                    ),
                forall|i: int| c <= i < before.len() ==> (#[trigger] self.block[i])@ == before[i],
            decreases self.block.len() - c,
        {
            append_frames(&mut self.block[c], &source[c], start, n);
            c += 1;
        }
        assert(self@ =~= appended(before, channels_view(source@), start as int, n as int));
    }
}

/// Puts `n` samples of `source`, from index `start` on, at the end of `channel`.
fn append_frames<T: Copy>(channel: &mut Vec<T>, source: &Vec<T>, start: usize, n: usize)
    requires
        start + n <= source.len(),
    ensures
        final(channel)@ == old(channel)@ + source@.subrange(start as int, start + n),
{
    let ghost before = channel@;
    let mut i: usize = 0;
    while i < n
        invariant
            i <= n,
            start + n <= source.len(),
            channel@ == before + source@.subrange(start as int, start + i),
        decreases n - i,
    {
        channel.push(source[start + i]);
        i += 1;
    }
}

/// What is known of a file once it has been opened.
pub struct FileInfo<Params> {
    /// Whatever the decoder tells beyond the fields below.
    pub params: Params,
    /// The number of frames in the file.
    pub num_frames: usize,
    /// The number of channels.
    pub num_channels: u16,
    /// The sample rate, if it is known.
    pub sample_rate: Option<u32>,
}

} // verus!
