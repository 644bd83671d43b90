# c2pa_stamping

Responses of language models can carry images, as base64 inside their JSON. This library finds the
images in a response, hands them out to be signed with C2PA metadata, and puts the signed images
back. A body, or a chunk of a streamed response, without an image is passed on byte for byte. So is
one with an image that cannot be signed, even if its other images can. Images that are signed already
are left alone, and do not keep the others from being signed.

* `src/` is the library. It is written in Verus: every function states what it does, and the
  statements are proved. Signing itself needs files, so the library does none: `body` and `sse` say
  which image is to be signed next and go on from the answer, and `signing` does the same for the
  steps of signing one file.
* `app/` is the rest: the assets, the temporary files, the calls that sign a file, the blocking tasks
  and the streamed bodies.
* `tests/` runs the library on given values.

The calls into other crates that the library makes, and what is taken for granted of them, stand in
`encoding`, `manifest` and `signing`; those into the standard library stand in `text`.
