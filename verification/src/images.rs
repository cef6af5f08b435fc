//! Decoded images, uploaded bitmaps, and the manager that keeps both warm.
//!
//! The manager does no work itself. A caller asks it what a load request
//! calls for, does the decoding and the uploading elsewhere, and reports each
//! outcome back. Files are known by their path. A request for a file whose
//! load is under way is dropped: the requester of the first load is the only
//! one to be told when it ends.

use crate::cache::{
    bounded, distinct_keys, lemma_lookup_pushed, lemma_pushed_keeps_invariant, lookup, pushed,
    total_size, Cache, GetSize,
};
use crate::error::Error;
use crate::path_map::PathMap;
use vstd::prelude::*;

verus! {

/// The number of bytes that `width` by `height` pixels occupy, four bytes to
/// the pixel.
pub open spec fn byte_count(width: nat, height: nat) -> nat {
    4 * (width * height)
}

/// A decoded image: rows of pixels of four bytes each, red, green, blue and
/// alpha.
#[derive(Debug)]
pub struct RawImage {
    width: u32,
    height: u32,
    pixels: Vec<u8>,
}

/// What a [`RawImage`] holds.
pub struct RawImageView {
    /// The number of pixels in a row.
    pub width: nat,
    /// The number of rows.
    pub height: nat,
    /// The bytes of the pixels, row by row.
    pub pixels: Seq<u8>,
}

impl View for RawImage {
    type V = RawImageView;

    closed spec fn view(&self) -> RawImageView {
        RawImageView {
            width: self.width as nat,
            height: self.height as nat,
            pixels: self.pixels@,
        }
    }
}

impl RawImage {
    #[verifier::type_invariant]
    spec fn inv(&self) -> bool {
        self.pixels@.len() == byte_count(self.width as nat, self.height as nat)
    }

    /// Makes an image of `width` by `height` pixels out of their bytes.
    /// There is an image exactly if there are four bytes for each pixel.
    pub fn new(width: u32, height: u32, pixels: Vec<u8>) -> (image: Option<RawImage>)
        ensures
            image is Some <==> pixels@.len() == byte_count(width as nat, height as nat),
            image matches Some(i) ==> i@ == (RawImageView {
                width: width as nat,
                height: height as nat,
                pixels: pixels@,
            }),
    {
        assert(width * height <= 0xffff_ffff * 0xffff_ffff) by (nonlinear_arith)
            requires
                width <= 0xffff_ffff,
                height <= 0xffff_ffff,
        ;
        let area: u64 = width as u64 * height as u64;
        let len: u64 = pixels.len() as u64;
        if len % 4 == 0 && len / 4 == area {
            Some(RawImage { width, height, pixels })
        } else {
            None
        }
    }

    /// Returns the number of pixels in a row.
    pub fn width(&self) -> (width: u32)
        ensures
            width == self@.width,
    {
        self.width
    }

    /// Returns the number of rows.
    pub fn height(&self) -> (height: u32)
        ensures
            height == self@.height,
    {
        self.height
    }

    /// Returns the bytes of the pixels. There are four for each pixel.
    pub fn pixels(&self) -> (pixels: &Vec<u8>)
        ensures
            pixels@ == self@.pixels,
            pixels@.len() == byte_count(self@.width, self@.height),
    {
        proof {
            use_type_invariant(self);
        }
        &self.pixels
    }
}

impl GetSize for RawImage {
    /// An image occupies the bytes of its pixels.
    open spec fn spec_size(&self) -> nat {
        self@.pixels.len()
    }

    fn get_size(&self) -> (n: usize) {
        self.pixels.len()
    }
}

/// A bitmap on the graphics device, known by a handle of type `H`.
#[derive(Debug)]
pub struct Bitmap<H> {
    handle: H,
    width: u32,
    height: u32,
}

/// What a [`Bitmap`] holds.
pub struct BitmapView<H> {
    /// The handle by which the device knows the bitmap.
    pub handle: H,
    /// The number of pixels in a row.
    pub width: nat,
    /// The number of rows.
    pub height: nat,
}

impl<H> View for Bitmap<H> {
    type V = BitmapView<H>;

    closed spec fn view(&self) -> BitmapView<H> {
        BitmapView { handle: self.handle, width: self.width as nat, height: self.height as nat }
    }
}

impl<H> Bitmap<H> {
    #[verifier::type_invariant]
    spec fn inv(&self) -> bool {
        byte_count(self.width as nat, self.height as nat) <= usize::MAX
    }

    /// Makes a bitmap of `width` by `height` pixels. There is a bitmap
    /// exactly if the number of its bytes, four for each pixel, can be
    /// counted.
    pub fn new(handle: H, width: u32, height: u32) -> (bitmap: Option<Bitmap<H>>)
        ensures
            bitmap is Some <==> byte_count(width as nat, height as nat) <= usize::MAX,
            bitmap matches Some(b) ==> b@ == (BitmapView {
                handle,
                width: width as nat,
                height: height as nat,
            }),
    {
        assert(width * height <= 0xffff_ffff * 0xffff_ffff) by (nonlinear_arith)
            requires
                width <= 0xffff_ffff,
                height <= 0xffff_ffff,
        ;
        let area: u64 = width as u64 * height as u64;
        if area <= (usize::MAX as u64) / 4 {
            Some(Bitmap { handle, width, height })
        } else {
            None
        }
    }

    /// Returns the handle by which the device knows the bitmap.
    pub fn handle(&self) -> (handle: &H)
        ensures
            *handle == self@.handle,
    {
        &self.handle
    }

    /// Returns the number of pixels in a row.
    pub fn width(&self) -> (width: u32)
        ensures
            width == self@.width,
    {
        self.width
    }

    /// Returns the number of rows.
    pub fn height(&self) -> (height: u32)
        ensures
            height == self@.height,
    {
        self.height
    }
}

impl<H> GetSize for Bitmap<H> {
    /// A bitmap occupies four bytes for each pixel.
    open spec fn spec_size(&self) -> nat {
        byte_count(self@.width, self@.height)
    }

    fn get_size(&self) -> (n: usize) {
        proof {
            use_type_invariant(self);
        }
        assert(self.width * self.height <= 0xffff_ffff * 0xffff_ffff) by (nonlinear_arith)
            requires
                self.width <= 0xffff_ffff,
                self.height <= 0xffff_ffff,
        ;
        let area: u64 = self.width as u64 * self.height as u64;
        (area * 4) as usize
    }
}

/// What a caller has to do about a file.
#[derive(Clone, Copy, PartialEq, Eq, Debug, Structural)]
pub enum LoadAction {
    /// Nothing is left to do: tell the requester that the load has ended.
    Notify,
    /// A load of the file is under way: drop the request.
    Skip,
    /// The pixels are resident: upload them, and report the outcome.
    Upload,
    /// Nothing is resident: decode the file, and report the outcome.
    Decode,
}

/// Where a file stands with an [`ImageManager`].
#[derive(Clone, Copy, PartialEq, Eq, Debug, Structural)]
pub enum LoadState {
    /// Nothing is known of the file, or what was resident has been evicted.
    Idle,
    /// A load of the file is under way.
    InFlight,
    /// The bitmap of the file is resident.
    Cached,
    /// The last load of the file failed.
    Failed,
}

/// What an [`ImageManager`] holds.
#[verifier::ext_equal]
pub struct ImageManagerView<H> {
    /// The uploaded bitmaps, oldest first, each under its path.
    pub bitmaps: Seq<(Seq<char>, Bitmap<H>)>,
    /// The number of bytes that the bitmaps aim to stay within.
    pub bitmap_target: nat,
    /// The decoded images, oldest first, each under its path.
    pub images: Seq<(Seq<char>, RawImage)>,
    /// The number of bytes that the images aim to stay within.
    pub image_target: nat,
    /// The last failure of each file that failed and has not succeeded
    /// since.
    pub errors: Map<Seq<char>, Error>,
    /// The files whose load is under way.
    pub in_flight: Set<Seq<char>>,
}

impl<H> ImageManagerView<H> {
    /// Each cache holds a path once and stays within its target, a single
    /// oversized entry excepted.
    pub open spec fn wf(self) -> bool {
        &&& distinct_keys(self.bitmaps)
        &&& bounded(self.bitmaps, self.bitmap_target)
        &&& distinct_keys(self.images)
        &&& bounded(self.images, self.image_target)
    }

    /// Where `path` stands: a load that is under way counts first, then a
    /// recorded failure, then a resident bitmap.
    pub open spec fn state_of(self, path: Seq<char>) -> LoadState {
        if self.in_flight.contains(path) {
            LoadState::InFlight
        } else if self.errors.dom().contains(path) {
            LoadState::Failed
        } else if lookup(self.bitmaps, path) is Some {
            LoadState::Cached
        } else {
            LoadState::Idle
        }
    }

    /// What a request to load `path` calls for.
    pub open spec fn action_for(self, path: Seq<char>) -> LoadAction {
        if lookup(self.bitmaps, path) is Some {
            LoadAction::Notify
        } else if self.in_flight.contains(path) {
            LoadAction::Skip
        } else if lookup(self.images, path) is Some {
            LoadAction::Upload
        } else {
            LoadAction::Decode
        }
    }

    /// The state after a request to load `path`: where work is called for,
    /// the load of the file is under way.
    pub open spec fn after_load(self, path: Seq<char>) -> Self {
        match self.action_for(path) {
            LoadAction::Notify | LoadAction::Skip => self,
            LoadAction::Upload | LoadAction::Decode => ImageManagerView {
                in_flight: self.in_flight.insert(path),
                ..self
            },
        }
    }

    /// What is to be done once the decoding of `path` has ended.
    pub open spec fn action_after_decoded(result: Result<RawImage, Error>) -> LoadAction {
        match result {
            Ok(_) => LoadAction::Upload,
            Err(_) => LoadAction::Notify,
        }
    }

    /// The state after the decoding of `path` has ended. An image goes into
    /// the cache of images. A failure is recorded, and ends the load.
    pub open spec fn after_decoded(self, path: Seq<char>, result: Result<RawImage, Error>) -> Self {
        match result {
            Ok(image) => ImageManagerView {
                images: pushed(self.images, self.image_target, path, image),
                ..self
            },
            Err(e) => ImageManagerView {
                errors: self.errors.insert(path, e),
                in_flight: self.in_flight.remove(path),
                ..self
            },
        }
    }

    /// The state after the upload of `path` has ended, which ends the load.
    /// A bitmap goes into the cache of bitmaps, and an earlier failure of
    /// the file is forgotten. A failure is recorded.
    pub open spec fn after_uploaded(
        self,
        path: Seq<char>,
        result: Result<Bitmap<H>, Error>,
    ) -> Self {
        match result {
            Ok(bitmap) => ImageManagerView {
                bitmaps: pushed(self.bitmaps, self.bitmap_target, path, bitmap),
                errors: self.errors.remove(path),
                in_flight: self.in_flight.remove(path),
                ..self
            },
            Err(e) => ImageManagerView {
                errors: self.errors.insert(path, e),
                in_flight: self.in_flight.remove(path),
                ..self
            },
        }
    }

    /// The state after everything resident and every recorded failure has
    /// been dropped. Loads that are under way stay so.
    pub open spec fn after_clear(self) -> Self {
        ImageManagerView {
            bitmaps: Seq::empty(),
            images: Seq::empty(),
            errors: Map::empty(),
            ..self
        }
    }

    /// What a lookup of `path` answers: the recorded failure if there is
    /// one, else the bitmap if it is resident, else nothing.
    pub open spec fn answer(self, path: Seq<char>) -> Result<Option<Bitmap<H>>, Error> {
        if self.errors.dom().contains(path) {
            Err(self.errors[path])
        } else {
            Ok(lookup(self.bitmaps, path))
        }
    }
}

/// The life of a file. A request takes a file that is idle or has failed
/// into flight, and leaves one that is resident as it is. In flight, a
/// decoded image changes nothing yet; a failure of either step ends the
/// load in failure, and a successful upload ends it with the bitmap
/// resident.
pub proof fn lemma_load_states<H>(
    state: ImageManagerView<H>,
    path: Seq<char>,
    image: RawImage,
    bitmap: Bitmap<H>,
    e: Error,
)
    requires
        state.wf(),
    ensures
        state.state_of(path) == LoadState::Idle ==> state.after_load(path).state_of(path)
            == LoadState::InFlight,
        state.state_of(path) == LoadState::Failed && lookup(state.bitmaps, path) is None
            ==> state.after_load(path).state_of(path) == LoadState::InFlight,
        state.state_of(path) == LoadState::Cached ==> state.after_load(path) == state
            && state.action_for(path) == LoadAction::Notify,
        state.state_of(path) == LoadState::InFlight ==> state.after_load(path) == state,
        state.state_of(path) == LoadState::InFlight ==> state.after_decoded(
            path,
            Ok(image),
        ).state_of(path) == LoadState::InFlight,
        state.after_decoded(path, Err(e)).state_of(path) == LoadState::Failed,
        state.after_uploaded(path, Err(e)).state_of(path) == LoadState::Failed,
        state.after_uploaded(path, Ok(bitmap)).state_of(path) == LoadState::Cached,
{
    lemma_pushed_keeps_invariant(state.bitmaps, state.bitmap_target, path, bitmap);
}

/// While the load of a file is under way, a second request for the file
/// calls for no work.
pub proof fn lemma_second_load_calls_for_no_work<H>(state: ImageManagerView<H>, path: Seq<char>)
    ensures
        state.after_load(path).action_for(path) == LoadAction::Notify || state.after_load(
            path,
        ).action_for(path) == LoadAction::Skip,
        state.after_load(path).after_load(path) == state.after_load(path),
{
}

/// A failure is recorded until the file succeeds: a lookup answers with it,
/// also after requests and outcomes that concern other files.
pub proof fn lemma_failure_is_sticky<H>(
    state: ImageManagerView<H>,
    path: Seq<char>,
    e: Error,
    other: Seq<char>,
    image: Result<RawImage, Error>,
    bitmap: Result<Bitmap<H>, Error>,
)
    requires
        other != path,
    ensures
        state.after_decoded(path, Err(e)).answer(path) == Err::<Option<Bitmap<H>>, Error>(e),
        state.after_uploaded(path, Err(e)).answer(path) == Err::<Option<Bitmap<H>>, Error>(e),
        state.after_load(other).answer(path) == state.answer(path),
        state.after_load(path).answer(path) == state.answer(path),
        state.answer(path) is Err ==> state.after_decoded(other, image).answer(path)
            == state.answer(path),
        state.answer(path) is Err ==> state.after_uploaded(other, bitmap).answer(path)
            == state.answer(path),
{
}

/// A successful upload makes the bitmap resident and forgets an earlier
/// failure of the file: a lookup answers with a bitmap.
pub proof fn lemma_success_clears_failure<H>(
    state: ImageManagerView<H>,
    path: Seq<char>,
    bitmap: Bitmap<H>,
)
    requires
        state.wf(),
    ensures
        state.after_uploaded(path, Ok(bitmap)).wf(),
        !state.after_uploaded(path, Ok(bitmap)).errors.dom().contains(path),
        state.after_uploaded(path, Ok(bitmap)).answer(path) matches Ok(Some(_)),
        lookup(state.bitmaps, path) is None ==> state.after_uploaded(path, Ok(bitmap)).answer(path)
            == Ok::<Option<Bitmap<H>>, Error>(Some(bitmap)),
{
    lemma_pushed_keeps_invariant(state.bitmaps, state.bitmap_target, path, bitmap);
    if lookup(state.bitmaps, path) is None {
        lemma_lookup_pushed(state.bitmaps, state.bitmap_target, path, bitmap);
    }
}

/// The two caches of an image browser, the failures of its files, and the
/// loads that are under way.
pub struct ImageManager<H> {
    bmp_cache: Cache<Bitmap<H>>,
    image_cache: Cache<RawImage>,
    errors: PathMap<Error>,
    in_flight: PathMap<()>,
}

impl<H> View for ImageManager<H> {
    type V = ImageManagerView<H>;

    closed spec fn view(&self) -> ImageManagerView<H> {
        ImageManagerView {
            bitmaps: self.bmp_cache@,
            bitmap_target: self.bmp_cache.target(),
            images: self.image_cache@,
            image_target: self.image_cache.target(),
            errors: self.errors@,
            in_flight: self.in_flight@.dom(),
        }
    }
}

impl<H> ImageManager<H> {
    /// Creates a manager with nothing resident, whose bitmaps aim to stay
    /// within `bmp_target_size` bytes and whose images within
    /// `image_target_size` bytes.
    pub fn new(bmp_target_size: usize, image_target_size: usize) -> (manager: Self)
        ensures
            manager@ == (ImageManagerView::<H> {
                bitmaps: Seq::empty(),
                bitmap_target: bmp_target_size as nat,
                images: Seq::empty(),
                image_target: image_target_size as nat,
                errors: Map::empty(),
                in_flight: Set::empty(),
            }),
    {
        let manager = ImageManager {
            bmp_cache: Cache::new(bmp_target_size),
            image_cache: Cache::new(image_target_size),
            errors: PathMap::new(),
            in_flight: PathMap::new(),
        };
        assert(manager@.in_flight =~= Set::empty());
        manager
    }

    /// Drops everything resident and every recorded failure.
    pub fn clear(&mut self)
        ensures
            final(self)@ == old(self)@.after_clear(),
    {
        self.bmp_cache.clear();
        self.image_cache.clear();
        self.errors.clear();
    }

    /// Returns the number of bytes held by the uploaded bitmaps.
    pub fn bmp_cache_size(&self) -> (n: usize)
        ensures
            n == total_size(self@.bitmaps),
            distinct_keys(self@.bitmaps),
            bounded(self@.bitmaps, self@.bitmap_target),
    {
        self.bmp_cache.size()
    }

    /// Returns the number of bytes held by the decoded images.
    pub fn image_cache_size(&self) -> (n: usize)
        ensures
            n == total_size(self@.images),
            distinct_keys(self@.images),
            bounded(self@.images, self@.image_target),
    {
        self.image_cache.size()
    }

    /// Takes a request to load `path` and says what it calls for. Where it
    /// calls for work, the load of the file is under way from now on, until
    /// a failure or the outcome of the upload is reported.
    pub fn load(&mut self, path: &String) -> (action: LoadAction)
        ensures
            action == old(self)@.action_for(path@),
            final(self)@ == old(self)@.after_load(path@),
    {
        if self.bmp_cache.find(path).is_some() {
            return LoadAction::Notify;
        }
        if self.in_flight.contains(path) {
            return LoadAction::Skip;
        }
        let action = if self.image_cache.find(path).is_some() {
            LoadAction::Upload
        } else {
            LoadAction::Decode
        };
        self.in_flight.insert(path.clone(), ());
        assert(self@.in_flight =~= old(self)@.in_flight.insert(path@));
        action
    }

    /// Tells where `path` stands.
    pub fn state(&self, path: &String) -> (state: LoadState)
        ensures
            state == self@.state_of(path@),
    {
        if self.in_flight.contains(path) {
            LoadState::InFlight
        } else if self.errors.contains(path) {
            LoadState::Failed
        } else if self.bmp_cache.find(path).is_some() {
            LoadState::Cached
        } else {
            LoadState::Idle
        }
    }

    /// Tells whether the load of `path` is under way.
    pub fn is_loading(&self, path: &String) -> (loading: bool)
        ensures
            loading == self@.in_flight.contains(path@),
    {
        self.in_flight.contains(path)
    }

    /// Returns the decoded image of `path`, if it is resident.
    pub fn image(&self, path: &String) -> (found: Option<&RawImage>)
        ensures
            found matches Some(image) ==> lookup(self@.images, path@) == Some(*image),
            found is None ==> lookup(self@.images, path@) is None,
    {
        self.image_cache.find(path)
    }

    /// Takes the outcome of decoding `path` and says what is to be done
    /// next: the upload after a success, which leaves the image resident;
    /// nothing but telling the requester after a failure.
    pub fn decoded(&mut self, path: String, result: Result<RawImage, Error>) -> (action: LoadAction)
        ensures
            action == ImageManagerView::<H>::action_after_decoded(result),
            final(self)@ == old(self)@.after_decoded(path@, result),
            result is Ok ==> lookup(final(self)@.images, path@) is Some,
    {
        match result {
            Ok(image) => {
                self.image_cache.push(path, image);
                LoadAction::Upload
            },
            Err(e) => {
                self.in_flight.remove(&path);
                self.errors.insert(path, e);
                assert(self@.in_flight =~= old(self)@.in_flight.remove(path@));
                LoadAction::Notify
            },
        }
    }

    /// Takes the outcome of uploading `path`, which ends the load of the
    /// file. After a success the bitmap is resident and an earlier failure
    /// of the file is forgotten; a failure is recorded.
    pub fn uploaded(&mut self, path: String, result: Result<Bitmap<H>, Error>)
        ensures
            final(self)@ == old(self)@.after_uploaded(path@, result),
    {
        self.in_flight.remove(&path);
        assert(self@.in_flight =~= old(self)@.in_flight.remove(path@));
        match result {
            Ok(bitmap) => {
                self.errors.remove(&path);
                self.bmp_cache.push(path, bitmap);
            },
            Err(e) => {
                self.errors.insert(path, e);
            },
        }
    }

    /// Looks `path` up: the recorded failure of the file if there is one,
    /// else its bitmap if that is resident, else nothing.
    pub fn get(&self, path: &String) -> (answer: Result<Option<&Bitmap<H>>, &Error>)
        ensures
            answer matches Err(e) ==> self@.answer(path@) == Err::<Option<Bitmap<H>>, Error>(*e),
            answer matches Ok(Some(bitmap)) ==> self@.answer(path@) == Ok::<
                Option<Bitmap<H>>,
                Error,
            >(Some(*bitmap)),
            answer matches Ok(None) ==> self@.answer(path@) == Ok::<Option<Bitmap<H>>, Error>(None),
    {
        match self.errors.get(path) {
            Some(e) => Err(e),
            None => Ok(self.bmp_cache.find(path)),
        }
    }
}

} // verus!
