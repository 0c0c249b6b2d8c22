//! XOR parity: split a buffer into equal fragments, add one parity fragment,
//! and rebuild any single lost data fragment from the others.
use vstd::prelude::*;

verus! {

/// Errors that encoding or recovery can report.
#[derive(Debug, Clone, Copy, PartialEq, Eq, Structural)]
pub enum XorError {
    /// The input buffer is empty.
    EmptyData,
    /// Fewer than two fragments were requested.
    InvalidChunkCount,
    /// The fragment index is out of bounds.
    InvalidChunkIndex,
}

impl XorError {
    /// A sentence that describes the error.
    pub fn message(&self) -> (r: &'static str)
        ensures
            *self == XorError::EmptyData ==> r@ == "Input data cannot be empty"@,
            *self == XorError::InvalidChunkCount ==> r@ == "Number of chunks must be at least 2"@,
            *self == XorError::InvalidChunkIndex ==> r@ == "Chunk index is out of bounds"@,
    {
        match self {
            XorError::EmptyData => "Input data cannot be empty",
            XorError::InvalidChunkCount => "Number of chunks must be at least 2",
            XorError::InvalidChunkIndex => "Chunk index is out of bounds",
        }
    }
}

/// Fragments of a buffer together with their XOR parity.
#[derive(Debug, Clone, PartialEq)]
pub struct XorEncoded {
    /// The data fragments, in the order of the original buffer.
    pub data_chunks: Vec<Vec<u8>>,
    /// Byte-wise XOR of all data fragments.
    pub parity_chunk: Vec<u8>,
    /// Length of every fragment, parity included.
    pub chunk_size: usize,
}

/// The contents of each buffer in `v`.
pub open spec fn byte_rows(v: Seq<Vec<u8>>) -> Seq<Seq<u8>> {
    v.map_values(|c: Vec<u8>| c@)
}

impl XorEncoded {
    /// The data fragments as byte sequences.
    pub open spec fn chunks(&self) -> Seq<Seq<u8>> {
        byte_rows(self.data_chunks@)
    }

    /// Every fragment, data and parity, is `chunk_size` bytes long.
    pub open spec fn well_sized(&self) -> bool {
        &&& forall|i: int| 0 <= i < self.chunks().len() ==> #[trigger] self.chunks()[i].len() == self.chunk_size
        &&& self.parity_chunk@.len() == self.chunk_size
    }

    /// A complete encoded set: at least two non-empty fragments of one size,
    /// and a parity fragment that is their byte-wise XOR.
    pub open spec fn wf(&self) -> bool {
        &&& self.chunks().len() >= 2
        &&& self.chunk_size > 0
        &&& self.well_sized()
        &&& self.parity_chunk@ == parity_of(self.chunks(), self.chunk_size as nat)
    }

    /// Whether every fragment, data and parity, is `chunk_size` bytes long.
    pub fn is_well_sized(&self) -> (r: bool)
        ensures
            r == self.well_sized(),
    {
        if self.parity_chunk.len() != self.chunk_size {
            return false;
        }
        let mut i: usize = 0;
        while i < self.data_chunks.len()
            invariant
                i <= self.chunks().len(),
                forall|k: int| 0 <= k < i ==> #[trigger] self.chunks()[k].len() == self.chunk_size,
            decreases self.chunks().len() - i,
        {
            if self.data_chunks[i].len() != self.chunk_size {
                assert(self.chunks()[i as int].len() != self.chunk_size);
                return false;
            }
            i += 1;
        }
        true
    }
}

/// XOR of byte `j` over the first `m` rows.
pub open spec fn xor_column(rows: Seq<Seq<u8>>, m: int, j: int) -> u8
    decreases m,
{
    if m <= 0 {
        0
    } else {
        xor_column(rows, m - 1, j) ^ rows[m - 1][j]
    }
}

/// XOR of byte `j` over the first `m` rows, leaving out row `skip`.
pub open spec fn xor_column_except(rows: Seq<Seq<u8>>, skip: int, m: int, j: int) -> u8
    decreases m,
{
    if m <= 0 {
        0
    } else if m - 1 == skip {
        xor_column_except(rows, skip, m - 1, j)
    } else {
        xor_column_except(rows, skip, m - 1, j) ^ rows[m - 1][j]
    }
}

/// The parity of `rows`: at each of `size` positions, the XOR of all rows.
pub open spec fn parity_of(rows: Seq<Seq<u8>>, size: nat) -> Seq<u8> {
    Seq::new(size, |j: int| xor_column(rows, rows.len() as int, j))
}

/// What recovery of row `lost` yields: at each position, the XOR of every
/// other row and of the parity.
pub open spec fn recovered_of(rows: Seq<Seq<u8>>, parity: Seq<u8>, lost: int, size: nat) -> Seq<u8> {
    Seq::new(size, |j: int| xor_column_except(rows, lost, rows.len() as int, j) ^ parity[j])
}

/// Fragment `i` of `data` cut in pieces of `size` bytes, zero-padded on the right.
pub open spec fn fragment(data: Seq<u8>, size: nat, i: int) -> Seq<u8> {
    Seq::new(size, |j: int| if i * size + j < data.len() { data[i * size + j] } else { 0u8 })
}

/// The `n` fragments that `data` is split into.
pub open spec fn fragments(data: Seq<u8>, n: nat) -> Seq<Seq<u8>> {
    Seq::new(n, |i: int| fragment(data, ceil_div(data.len(), n), i))
}

/// The rows laid end to end.
pub open spec fn concat(rows: Seq<Seq<u8>>) -> Seq<u8>
    decreases rows.len(),
{
    if rows.len() == 0 {
        Seq::empty()
    } else {
        concat(rows.drop_last()) + rows.last()
    }
}

/// The rows laid end to end, cut to `size` bytes when they hold more.
pub open spec fn decoded(rows: Seq<Seq<u8>>, size: nat) -> Seq<u8> {
    let flat = concat(rows);
    if size <= flat.len() {
        flat.take(size as int)
    } else {
        flat
    }
}

/// Ceiling of `a / b`.
pub open spec fn ceil_div(a: nat, b: nat) -> nat
    recommends
        b > 0,
{
    ((a + b - 1) / (b as int)) as nat
}

/// `ceil(len / n)`, computed without overflow.
fn chunk_size_for(len: usize, n: usize) -> (r: usize)
    requires
        n > 0,
    ensures
        r == ceil_div(len as nat, n as nat),
{
    let q = len / n;
    if len % n == 0 {
        proof {
            assert(((len + n - 1) / (n as int)) == q) by (nonlinear_arith)
                requires
                    n > 0,
                    len % n == 0,
                    q == len / n,
            ;
        }
        q
    } else {
        proof {
            assert(((len + n - 1) / (n as int)) == q + 1) by (nonlinear_arith)
                requires
                    n > 0,
                    len % n != 0,
                    q == len / n,
            ;
            assert(q < len) by (nonlinear_arith)
                requires
                    n > 0,
                    len % n != 0,
                    q == len / n,
            ;
        }
        q + 1
    }
}


/// Byte-wise XOR of `chunks`, which all have the length of the first one.
fn generate_parity(chunks: &[Vec<u8>]) -> (r: Vec<u8>)
    requires
        forall|i: int| 0 <= i < chunks@.len() ==> #[trigger] chunks@[i]@.len() == chunks@[0]@.len(),
    ensures
        r@ == parity_of(byte_rows(chunks@), if chunks@.len() == 0 { 0 } else { chunks@[0]@.len() }),
{
    if chunks.len() == 0 {
        return Vec::new();
    }
    let ghost rows = byte_rows(chunks@);
    let chunk_size = chunks[0].len();
    let mut parity: Vec<u8> = vec![0u8; chunk_size];
    let mut i: usize = 0;
    while i < chunks.len()
        invariant
            0 < chunks@.len(),
            chunk_size == chunks@[0]@.len(),
            rows == byte_rows(chunks@),
            forall|k: int| 0 <= k < chunks@.len() ==> #[trigger] chunks@[k]@.len() == chunks@[0]@.len(),
            i <= chunks@.len(),
            parity@.len() == chunk_size,
            forall|j: int| 0 <= j < chunk_size ==> #[trigger] parity@[j] == xor_column(rows, i as int, j),
        decreases chunks@.len() - i,
    {
        let chunk = &chunks[i];
        let mut j: usize = 0;
        while j < chunk.len()
            invariant
                i < chunks@.len(),
                chunk@ == chunks@[i as int]@,
                chunk@.len() == chunk_size,
                rows == byte_rows(chunks@),
                j <= chunk_size,
                parity@.len() == chunk_size,
                forall|jj: int| 0 <= jj < j ==> #[trigger] parity@[jj] == xor_column(rows, i + 1, jj),
                forall|jj: int| j <= jj < chunk_size ==> #[trigger] parity@[jj] == xor_column(rows, i as int, jj),
            decreases chunk_size - j,
        {
            let b = parity[j] ^ chunk[j];
            parity.set(j, b);
            j += 1;
        }
        i += 1;
    }
    assert(parity@ =~= parity_of(rows, chunk_size as nat));
    parity
}

/// Splits `data` into `num_chunks` fragments of `ceil(len / num_chunks)` bytes,
/// zero-padding the last ones, and adds their XOR parity.
pub fn encode(data: &[u8], num_chunks: usize) -> (r: Result<XorEncoded, XorError>)
    ensures
        data@.len() == 0 ==> r == Err::<XorEncoded, XorError>(XorError::EmptyData),
        data@.len() > 0 && num_chunks < 2 ==> r == Err::<XorEncoded, XorError>(XorError::InvalidChunkCount),
        data@.len() > 0 && num_chunks >= 2 ==> (r matches Ok(enc) && {
            &&& enc.chunk_size == ceil_div(data@.len(), num_chunks as nat)
            &&& enc.chunks() == fragments(data@, num_chunks as nat)
            &&& enc.parity_chunk@ == parity_of(enc.chunks(), enc.chunk_size as nat)
            &&& enc.wf()
        }),
{
    if data.len() == 0 {
        return Err(XorError::EmptyData);
    }
    if num_chunks < 2 {
        return Err(XorError::InvalidChunkCount);
    }
    let len = data.len();
    let chunk_size = chunk_size_for(len, num_chunks);
    let ghost cs = chunk_size as nat;
    let ghost frags = fragments(data@, num_chunks as nat);
    proof {
        assert(cs > 0) by (nonlinear_arith)
            requires
                cs == ((len + num_chunks - 1) / (num_chunks as int)) as nat,
                len > 0,
                num_chunks > 0,
        ;
    }
    let mut data_chunks: Vec<Vec<u8>> = Vec::new();
    let mut start: usize = 0;
    let mut i: usize = 0;
    while i < num_chunks
        invariant
            len == data@.len(),
            chunk_size == cs,
            cs == ceil_div(len as nat, num_chunks as nat),
            cs > 0,
            frags == fragments(data@, num_chunks as nat),
            i <= num_chunks,
            start <= len,
            start == if i * cs < len { i * cs } else { len as int },
            data_chunks@.len() == i,
            forall|k: int| 0 <= k < i ==> #[trigger] data_chunks@[k]@ == frags[k],
        decreases num_chunks - i,
    {
        let ghost base: int = i * cs;
        let end: usize = if len - start <= chunk_size { len } else { start + chunk_size };
        proof {
            assert((i + 1) * cs == base + cs) by (nonlinear_arith)
                requires
                    base == i * cs,
            ;
            assert(0 <= base) by (nonlinear_arith)
                requires
                    base == i * cs,
                    i >= 0,
                    cs >= 0,
            ;
        }
        let mut chunk: Vec<u8> = Vec::new();
        let mut j: usize = 0;
        while j < chunk_size
            invariant
                len == data@.len(),
                start <= end <= len,
                end - start <= cs,
                chunk_size == cs,
                0 <= base,
                start == if base < len { base } else { len as int },
                end == if base + cs < len { base + cs } else { len as int },
                j <= chunk_size,
                chunk@.len() == j,
                forall|jj: int| 0 <= jj < j ==> #[trigger] chunk@[jj] == (if base + jj < len { data@[base + jj] } else { 0u8 }),
            decreases chunk_size - j,
        {
            let b: u8 = if j < end - start { data[start + j] } else { 0u8 };
            chunk.push(b);
            j += 1;
        }
        assert(chunk@ =~= fragment(data@, cs, i as int));
        data_chunks.push(chunk);
        start = end;
        i += 1;
    }
    let parity_chunk = generate_parity(data_chunks.as_slice());
    let enc = XorEncoded { data_chunks, parity_chunk, chunk_size };
    assert(enc.chunks() =~= frags);
    Ok(enc)
}

/// Rebuilds data fragment `lost_chunk_index` from the other data fragments
/// and the parity fragment; whatever that fragment holds is ignored.
pub fn recover_chunk(encoded: &XorEncoded, lost_chunk_index: usize) -> (r: Result<Vec<u8>, XorError>)
    requires
        encoded.well_sized(),
    ensures
        lost_chunk_index >= encoded.chunks().len() ==> r == Err::<Vec<u8>, XorError>(XorError::InvalidChunkIndex),
        lost_chunk_index < encoded.chunks().len() ==> (r matches Ok(v) && v@ == recovered_of(
            encoded.chunks(),
            encoded.parity_chunk@,
            lost_chunk_index as int,
            encoded.chunk_size as nat,
        )),
        encoded.wf() && lost_chunk_index < encoded.chunks().len() ==> (r matches Ok(v) && v@
            == encoded.chunks()[lost_chunk_index as int]),
{
    if lost_chunk_index >= encoded.data_chunks.len() {
        return Err(XorError::InvalidChunkIndex);
    }
    let ghost rows = encoded.chunks();
    let ghost lost = lost_chunk_index as int;
    let chunk_size = encoded.chunk_size;
    let mut recovered: Vec<u8> = vec![0u8; chunk_size];
    let mut i: usize = 0;
    while i < encoded.data_chunks.len()
        invariant
            encoded.well_sized(),
            rows == encoded.chunks(),
            lost == lost_chunk_index as int,
            chunk_size == encoded.chunk_size,
            i <= rows.len(),
            recovered@.len() == chunk_size,
            forall|j: int| 0 <= j < chunk_size ==> #[trigger] recovered@[j] == xor_column_except(rows, lost, i as int, j),
        decreases rows.len() - i,
    {
        if i != lost_chunk_index {
            let chunk = &encoded.data_chunks[i];
            assert(chunk@ == rows[i as int]);
            let mut j: usize = 0;
            while j < chunk.len()
                invariant
                    i < rows.len(),
                    i != lost,
                    chunk@ == rows[i as int],
                    chunk@.len() == chunk_size,
                    j <= chunk_size,
                    recovered@.len() == chunk_size,
                    forall|jj: int| 0 <= jj < j ==> #[trigger] recovered@[jj] == xor_column_except(rows, lost, i + 1, jj),
                    forall|jj: int| j <= jj < chunk_size ==> #[trigger] recovered@[jj] == xor_column_except(rows, lost, i as int, jj),
                decreases chunk_size - j,
            {
                let b = recovered[j] ^ chunk[j];
                recovered.set(j, b);
                j += 1;
            }
        }
        i += 1;
    }
    let parity = &encoded.parity_chunk;
    let mut j: usize = 0;
    while j < parity.len()
        invariant
            parity@ == encoded.parity_chunk@,
            parity@.len() == chunk_size,
            rows.len() == i,
            j <= chunk_size,
            recovered@.len() == chunk_size,
            forall|jj: int| 0 <= jj < j ==> #[trigger] recovered@[jj] == xor_column_except(rows, lost, i as int, jj) ^ parity@[jj],
            forall|jj: int| j <= jj < chunk_size ==> #[trigger] recovered@[jj] == xor_column_except(rows, lost, i as int, jj),
        decreases chunk_size - j,
    {
        let b = recovered[j] ^ parity[j];
        recovered.set(j, b);
        j += 1;
    }
    assert(recovered@ =~= recovered_of(rows, encoded.parity_chunk@, lost, chunk_size as nat));
    proof {
        if encoded.wf() {
            lemma_recover_exact(encoded, lost);
        }
    }
    Ok(recovered)
}

/// Lays the data fragments end to end and cuts the result to `original_size`
/// bytes; where the fragments hold fewer bytes, all of them are returned.
pub fn decode(encoded: &XorEncoded, original_size: usize) -> (r: Vec<u8>)
    ensures
        r@ == decoded(encoded.chunks(), original_size as nat),
{
    let ghost rows = encoded.chunks();
    let mut data: Vec<u8> = Vec::new();
    let mut i: usize = 0;
    while i < encoded.data_chunks.len()
        invariant
            rows == encoded.chunks(),
            i <= rows.len(),
            data@ == concat(rows.take(i as int)),
        decreases rows.len() - i,
    {
        let chunk = &encoded.data_chunks[i];
        let ghost before = data@;
        let mut j: usize = 0;
        while j < chunk.len()
            invariant
                i < rows.len(),
                chunk@ == rows[i as int],
                j <= chunk@.len(),
                data@ == before + chunk@.take(j as int),
            decreases chunk@.len() - j,
        {
            data.push(chunk[j]);
            assert(chunk@.take(j + 1) =~= chunk@.take(j as int).push(chunk@[j as int]));
            j += 1;
        }
        assert(rows.take(i + 1).drop_last() =~= rows.take(i as int));
        assert(chunk@.take(j as int) =~= chunk@);
        i += 1;
    }
    assert(rows.take(i as int) =~= rows);
    data.truncate(original_size);
    data
}

/// XOR over all rows equals XOR over all rows but one, XOR that row.
proof fn lemma_xor_split(rows: Seq<Seq<u8>>, skip: int, m: int, j: int)
    requires
        0 <= skip < m,
    ensures
        xor_column(rows, m, j) == xor_column_except(rows, skip, m, j) ^ rows[skip][j],
    decreases m,
{
    let r = rows[m - 1][j];
    if m - 1 == skip {
        lemma_xor_except_beyond(rows, skip, m - 1, j);
    } else {
        lemma_xor_split(rows, skip, m - 1, j);
        let a = xor_column_except(rows, skip, m - 1, j);
        let b = rows[skip][j];
        assert((a ^ b) ^ r == (a ^ r) ^ b) by (bit_vector);
    }
}

/// Leaving out a row past the first `m` changes nothing.
proof fn lemma_xor_except_beyond(rows: Seq<Seq<u8>>, skip: int, m: int, j: int)
    requires
        skip >= m,
    ensures
        xor_column(rows, m, j) == xor_column_except(rows, skip, m, j),
    decreases m,
{
    if m > 0 {
        lemma_xor_except_beyond(rows, skip, m - 1, j);
    }
}

/// In a complete encoded set, the XOR of the parity and every data fragment
/// but one is that fragment, whichever one it is.
pub proof fn lemma_recover_exact(encoded: &XorEncoded, lost: int)
    requires
        encoded.wf(),
        0 <= lost < encoded.chunks().len(),
    ensures
        recovered_of(encoded.chunks(), encoded.parity_chunk@, lost, encoded.chunk_size as nat)
            == encoded.chunks()[lost],
{
    let rows = encoded.chunks();
    let n = rows.len() as int;
    let rec = recovered_of(rows, encoded.parity_chunk@, lost, encoded.chunk_size as nat);
    assert forall|j: int| 0 <= j < encoded.chunk_size implies #[trigger] rec[j] == rows[lost][j] by {
        lemma_xor_split(rows, lost, n, j);
        let a = xor_column_except(rows, lost, n, j);
        let c = rows[lost][j];
        assert(a ^ (a ^ c) == c) by (bit_vector);
    }
    assert(rec =~= rows[lost]);
}

/// In a complete encoded set, the XOR of every data fragment and the parity
/// fragment is all zeros, at every position.
pub proof fn lemma_parity_cancels(encoded: &XorEncoded)
    requires
        encoded.wf(),
    ensures
        Seq::new(
            encoded.chunk_size as nat,
            |j: int| xor_column(encoded.chunks(), encoded.chunks().len() as int, j) ^ encoded.parity_chunk@[j],
        ) == Seq::new(encoded.chunk_size as nat, |j: int| 0u8),
{
    let rows = encoded.chunks();
    let lhs = Seq::new(
        encoded.chunk_size as nat,
        |j: int| xor_column(rows, rows.len() as int, j) ^ encoded.parity_chunk@[j],
    );
    assert forall|j: int| 0 <= j < encoded.chunk_size implies #[trigger] lhs[j] == 0u8 by {
        let a = xor_column(rows, rows.len() as int, j);
        assert(a ^ a == 0u8) by (bit_vector);
    }
    assert(lhs =~= Seq::new(encoded.chunk_size as nat, |j: int| 0u8));
}

/// The first `m` fragments laid end to end are `data` padded with zeros to
/// `m * size` bytes.
proof fn lemma_concat_fragments(data: Seq<u8>, size: nat, m: nat)
    ensures
        concat(Seq::new(m, |i: int| fragment(data, size, i))) == Seq::new(
            m * size,
            |k: int| if k < data.len() { data[k] } else { 0u8 },
        ),
    decreases m,
{
    let rows = Seq::new(m, |i: int| fragment(data, size, i));
    let padded = Seq::new(m * size, |k: int| if k < data.len() { data[k] } else { 0u8 });
    if m == 0 {
        assert(m * size == 0) by (nonlinear_arith)
            requires
                m == 0,
        ;
        assert(concat(rows) =~= padded);
    } else {
        let prev = (m - 1) as nat;
        lemma_concat_fragments(data, size, prev);
        assert(rows.drop_last() =~= Seq::new(prev, |i: int| fragment(data, size, i)));
        assert(m * size == prev * size + size) by (nonlinear_arith)
            requires
                prev == m - 1,
        ;
        let flat = concat(rows);
        assert(flat == concat(rows.drop_last()) + fragment(data, size, m - 1));
        assert forall|k: int| 0 <= k < m * size implies #[trigger] flat[k] == padded[k] by {
            if k >= prev * size {
                let j = k - prev * size;
                assert((m - 1) * size + j == k);
            }
        }
        assert(flat =~= padded);
    }
}

/// Decoding the fragments of `data` with its length gives back `data`.
pub proof fn lemma_round_trip(data: Seq<u8>, num_chunks: nat)
    requires
        data.len() > 0,
        num_chunks >= 2,
    ensures
        decoded(fragments(data, num_chunks), data.len()) == data,
{
    let cs = ceil_div(data.len(), num_chunks);
    let rows = fragments(data, num_chunks);
    lemma_concat_fragments(data, cs, num_chunks);
    assert(rows =~= Seq::new(num_chunks, |i: int| fragment(data, cs, i)));
    assert(num_chunks * cs >= data.len()) by (nonlinear_arith)
        requires
            cs == ((data.len() + num_chunks - 1) / (num_chunks as int)) as nat,
            num_chunks > 0,
    ;
    assert(decoded(rows, data.len()) =~= data);
}

/// The eight binary digits of `b`, most significant first.
pub open spec fn binary_digits(b: u8) -> Seq<char> {
    Seq::new(8, |k: int| if (b >> ((7 - k) as u8)) & 1u8 == 1u8 { '1' } else { '0' })
}

/// The binary digits of each byte, the groups separated by single spaces.
pub open spec fn binary_text(bytes: Seq<u8>) -> Seq<char>
    decreases bytes.len(),
{
    if bytes.len() == 0 {
        Seq::empty()
    } else if bytes.len() == 1 {
        binary_digits(bytes[0])
    } else {
        binary_text(bytes.drop_last()) + seq![' '] + binary_digits(bytes.last())
    }
}

/// A printable ASCII byte stands for itself; any other byte shows as `'.'`.
pub open spec fn ascii_char(b: u8) -> char {
    if 32 <= b <= 126 {
        b as char
    } else {
        '.'
    }
}

/// Relies on `String::push`: appends one character.
#[verifier::external_body]
fn push_char(s: &mut String, c: char)
    ensures
        final(s)@ == old(s)@.push(c),
{
    s.push(c);
}

/// Formats a byte as eight binary digits.
pub fn byte_to_binary(byte: u8) -> (r: String)
    ensures
        r@ == binary_digits(byte),
{
    let mut s = String::new();
    let mut k: u8 = 0;
    while k < 8
        invariant
            k <= 8,
            s@ == binary_digits(byte).take(k as int),
        decreases 8 - k,
    {
        let bit = (byte >> (7 - k)) & 1u8;
        let c = if bit == 1u8 { '1' } else { '0' };
        push_char(&mut s, c);
        assert(binary_digits(byte).take(k + 1) =~= binary_digits(byte).take(k as int).push(c));
        k += 1;
    }
    assert(binary_digits(byte).take(8) =~= binary_digits(byte));
    s
}

/// Formats a fragment as the binary digits of its bytes, separated by spaces.
pub fn chunk_to_binary(chunk: &[u8]) -> (r: String)
    ensures
        r@ == binary_text(chunk@),
{
    let mut s = String::new();
    let mut i: usize = 0;
    while i < chunk.len()
        invariant
            i <= chunk@.len(),
            s@ == binary_text(chunk@.take(i as int)),
        decreases chunk@.len() - i,
    {
        let ghost prev = chunk@.take(i as int);
        let ghost next = chunk@.take(i + 1);
        assert(next.drop_last() =~= prev);
        if i > 0 {
            push_char(&mut s, ' ');
        }
        let digits = byte_to_binary(chunk[i]);
        s.append(digits.as_str());
        i += 1;
    }
    assert(chunk@.take(i as int) =~= chunk@);
    s
}

/// Formats a fragment as text: printable ASCII bytes as themselves, every
/// other byte as `'.'`.
pub fn chunk_to_ascii(chunk: &[u8]) -> (r: String)
    ensures
        r@ == Seq::new(chunk@.len(), |k: int| ascii_char(chunk@[k])),
{
    let mut s = String::new();
    let mut i: usize = 0;
    while i < chunk.len()
        invariant
            i <= chunk@.len(),
            s@ == Seq::new(i as nat, |k: int| ascii_char(chunk@[k])),
        decreases chunk@.len() - i,
    {
        let b = chunk[i];
        let c = if b >= 32 && b <= 126 { b as char } else { '.' };
        push_char(&mut s, c);
        assert(s@ =~= Seq::new((i + 1) as nat, |k: int| ascii_char(chunk@[k])));
        i += 1;
    }
    s
}

} // verus!
