# vision_core

Screenshot, OCR and image analysis tools. The library decides and computes;
what touches the machine (screens, files, models, services) is done by whoever
calls it and handed over as plain values.

Every function in `src/` is verified with Verus against its contract, but for
the few that call outside code, named below.

## Layout

- `execute`, `resume`, `answers`, `outcome`: a tool is carried out in turns. Each
  turn answers, or asks for something to be done and waits for what becomes of
  it. An answer tells whether the tool failed.
- `definitions`, `catalogue`: the tools as they are described, and that the
  descriptions tell the truth.
- `diff`, `template`: comparing images, and finding one in another.
- `detect`, `boxes`, `flood`, `recognize`, `normalize`, `decode`, `pipeline`:
  reading text in two stages, detection and recognition, around the models.
- `backend`, `words`: which engine reads text, what it needs, and the words that
  an engine gives line by line.
- `screen`, `media`, `encoding`, `raster`, `analyze`: captures, image files,
  base 64, images as bytes, and what a service is asked.
- `float`, `arithmetic`, `rounding`, `bits`, `single`: binary floating point in
  integer arithmetic, rounded as IEEE 754 has it. Floating point numbers enter
  and leave the library as their encodings.
- `json`, `text`, `messages`, `tensor`: values that the rest is made of.

`app/` puts the library on a real machine. It reads its settings from the
environment:

| Variable | What it gives |
| --- | --- |
| `VISION_CORE_OCR_BACKEND` | the engine: `paddle`, `onnx`, `paddleocr` or `windows` |
| `VISION_CORE_PADDLE_DET_MODEL` | the detection model |
| `VISION_CORE_PADDLE_REC_MODEL` | the recognition model |
| `VISION_CORE_PADDLE_DICT` | the dictionary, one token to a line |
| `VISION_CORE_SERVICE_NAME` | what the service is called that analyzes images |
| `VISION_CORE_SERVICE_MODEL` | the model that is asked |
| `ANTHROPIC_API_KEY` | the key to the service |

Captures that nobody names are kept in the system's folder for temporary files.

## What is trusted

Contracts that rest on outside code are marked in the source: cropping,
resizing, dropping alpha and JPEG files (`image`), base 64 (`base64`), the time
(`chrono`), and from the standard library the extension of a path, lower case,
and adding a character to a text.
